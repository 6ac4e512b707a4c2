//! The random-access gate: `num_copies` independent checks, each asserting
//! that the element of a `2^bits`-sized list at a claimed access index equals
//! a claimed element. Per copy the row holds the access index, the claimed
//! element and the list (all routable), followed by the index's binary
//! decomposition (auxiliary). Per copy the constraints are, in order: one
//! boolean check per index bit, the doubled-and-added reconstruction of the
//! access index, and the pairwise fold of the list down to the selected
//! element.

use vstd::prelude::*;
use vstd::arithmetic::div_mod::{lemma_fundamental_div_mod, lemma_fundamental_div_mod_converse,
    lemma_small_mod};
use vstd::arithmetic::mul::lemma_mul_inequality;
use vstd::arithmetic::power2::{
    lemma2_to64, lemma_pow2_adds, lemma_pow2_pos, lemma_pow2_strictly_increases, pow2,
};
use vstd::bits::lemma_u64_shl_is_mul;
use crate::constraints::{
    all_canonical, bool_check_m, e_bool_check, e_fold_all, e_fold_once, e_recon, embed_seq,
    fold_all_m, fold_once_m, lemma_e_fold_all_push, lemma_embed_bool_check, lemma_embed_fold_all,
    lemma_embed_recon, lemma_fold_all_canonical,
    lemma_fold_all_singleton, lemma_recon_range, recon_m,
};
use crate::extension::{embed_m, lemma_embed_sub};
use crate::field::{sub_m, FIELD_ORDER};
use crate::packed::{lane_of, PackedBase};
use crate::recorder::{lemma_degrees_le_preserved, lemma_node_degree_prefix,
    lemma_node_value_prefix, lemma_prefix_trans, lemma_values_preserved, node_degree, node_value,
    CircuitRecorder, ExtNode};
use crate::constraints::{lemma_bool_check_shape, lemma_double_shape};
use crate::extension::{e_add, e_mul};
use crate::extension::QuadraticExtension;
use crate::field::FieldElement;
use crate::generator::{AnyWitnessGenerator, GeneratedValues, SimpleGenerator,
    SimpleGeneratorAdapter};
use crate::target::{HashOut, Target, Wire};
use crate::witness::PartitionWitness;
use crate::CircuitError;

verus! {

/// The slice of the circuit configuration that sizes this gate.
#[derive(Clone, Copy, PartialEq, Eq, Debug, Structural)]
pub struct CircuitConfig {
    pub num_wires: usize,
    pub num_routed_wires: usize,
}

/// One evaluation point over the extension field: the wire values of a row.
#[derive(Clone, Debug)]
pub struct EvaluationVars {
    pub local_constants: Vec<QuadraticExtension>,
    pub local_wires: Vec<QuadraticExtension>,
    pub public_inputs_hash: HashOut,
}

/// The views of a sequence of extension values.
pub open spec fn ext_views(s: Seq<QuadraticExtension>) -> Seq<(int, int)> {
    Seq::new(s.len(), |i: int| s[i]@)
}

impl EvaluationVars {
    /// The residues of the wire values.
    pub open spec fn wire_values(&self) -> Seq<(int, int)> {
        ext_views(self.local_wires@)
    }
}

/// A gate checking that a particular element of a list matches a given value.
#[derive(Clone, Copy, PartialEq, Eq, Debug, Structural)]
pub struct RandomAccessGate {
    pub bits: usize,
    pub num_copies: usize,
}

impl RandomAccessGate {
    /// The list length of each copy.
    pub open spec fn spec_vec_size(self) -> int {
        pow2(self.bits as nat) as int
    }

    /// The dimensions stay within the wire budget that the layout arithmetic
    /// assumes.
    pub open spec fn wf(self) -> bool {
        &&& 1 <= self.bits <= 26
        &&& 1 <= self.num_copies
        &&& (2 + self.spec_vec_size() + self.bits) * self.num_copies <= 0xFFFF_FFFFint
    }

    pub open spec fn spec_wire_access_index(self, copy: int) -> int {
        (2 + self.spec_vec_size()) * copy
    }

    pub open spec fn spec_wire_claimed_element(self, copy: int) -> int {
        (2 + self.spec_vec_size()) * copy + 1
    }

    pub open spec fn spec_wire_list_item(self, i: int, copy: int) -> int {
        (2 + self.spec_vec_size()) * copy + 2 + i
    }

    pub open spec fn spec_start_of_intermediate_wires(self) -> int {
        (2 + self.spec_vec_size()) * self.num_copies
    }

    pub open spec fn spec_wire_bit(self, i: int, copy: int) -> int {
        self.spec_start_of_intermediate_wires() + copy * self.bits + i
    }

    pub open spec fn spec_num_wires(self) -> int {
        self.spec_start_of_intermediate_wires() + self.num_copies * self.bits
    }

    pub open spec fn spec_num_constraints(self) -> int {
        self.num_copies * (self.bits + 2)
    }

    pub open spec fn spec_degree(self) -> int {
        self.bits + 1
    }

    /// Structural consequences of well-formedness used by the layout
    /// arithmetic.
    pub proof fn lemma_wf_bounds(self)
        requires
            self.wf(),
        ensures
            2 <= self.spec_vec_size() <= 0x0400_0000,
            self.spec_num_wires() == (2 + self.spec_vec_size() + self.bits) * self.num_copies,
            self.spec_num_wires() <= 0xFFFF_FFFF,
            self.spec_start_of_intermediate_wires() <= self.spec_num_wires(),
            self.spec_num_constraints() <= self.spec_num_wires(),
    {
        lemma_pow2_pos(self.bits as nat);
        lemma2_to64();
        if self.bits < 26 {
            lemma_pow2_strictly_increases(self.bits as nat, 26);
        }
        if 1 < self.bits {
            lemma_pow2_strictly_increases(1, self.bits as nat);
        }
        let vs = self.spec_vec_size();
        let nc = self.num_copies as int;
        let b = self.bits as int;
        assert((2 + vs) * nc + nc * b == (2 + vs + b) * nc) by (nonlinear_arith);
        assert((2 + vs) * nc >= 0 && nc * b >= 0) by (nonlinear_arith)
            requires
                vs >= 0 && nc >= 0 && b >= 0,
        ;
        assert(nc * (b + 2) <= (2 + vs + b) * nc) by (nonlinear_arith)
            requires
                vs >= 2 && nc >= 1 && b >= 1,
        ;
    }

    /// Per-copy wire blocks stay below the start of the intermediate wires.
    pub proof fn lemma_copy_block(self, copy: int)
        requires
            self.wf(),
            0 <= copy < self.num_copies,
        ensures
            0 <= (2 + self.spec_vec_size()) * copy,
            (2 + self.spec_vec_size()) * copy + 2 + self.spec_vec_size()
                <= self.spec_start_of_intermediate_wires(),
    {
        let w = 2 + self.spec_vec_size();
        self.lemma_wf_bounds();
        lemma_mul_inequality(copy + 1, self.num_copies as int, w);
        assert((copy + 1) * w == copy * w + w) by (nonlinear_arith);
        assert(copy * w == w * copy) by (nonlinear_arith);
        assert((self.num_copies as int) * w == w * (self.num_copies as int)) by (nonlinear_arith);
        assert(copy * w >= 0) by (nonlinear_arith)
            requires
                copy >= 0 && w >= 0,
        ;
    }

    /// Per-copy bit blocks stay below the total wire count.
    pub proof fn lemma_bit_block(self, copy: int)
        requires
            self.wf(),
            0 <= copy < self.num_copies,
        ensures
            0 <= copy * self.bits,
            copy * self.bits + self.bits <= self.num_copies * self.bits,
    {
        let b = self.bits as int;
        lemma_mul_inequality(copy + 1, self.num_copies as int, b);
        assert((copy + 1) * b == copy * b + b) by (nonlinear_arith);
        assert(copy * b >= 0) by (nonlinear_arith)
            requires
                copy >= 0 && b >= 0,
        ;
    }


    /// Every wire index of one copy lies below the total wire count.
    pub proof fn lemma_wire_index_bounds(self, copy: int)
        requires
            self.wf(),
            0 <= copy < self.num_copies,
        ensures
            0 <= self.spec_wire_access_index(copy) < self.spec_num_wires(),
            0 <= self.spec_wire_claimed_element(copy) < self.spec_num_wires(),
            forall|i: int|
                0 <= i < self.spec_vec_size() ==> 0 <= #[trigger] self.spec_wire_list_item(
                    i,
                    copy,
                ) < self.spec_num_wires(),
            forall|i: int|
                0 <= i < self.bits ==> 0 <= #[trigger] self.spec_wire_bit(i, copy)
                    < self.spec_num_wires(),
    {
        self.lemma_wf_bounds();
        self.lemma_copy_block(copy);
        self.lemma_bit_block(copy);
    }

    pub fn new(num_copies: usize, bits: usize) -> (r: Self)
        requires
            (RandomAccessGate { bits, num_copies }).wf(),
        ensures
            r == (RandomAccessGate { bits, num_copies }),
    {
        RandomAccessGate { bits, num_copies }
    }

    /// Builds the widest gate that fits the wire budgets of the
    /// configuration, counting routed and total wires per copy.
    pub fn new_from_config(config: &CircuitConfig, bits: usize) -> (r: Self)
        requires
            1 <= bits <= 26,
            config.num_routed_wires as int >= 2 + pow2(bits as nat),
            config.num_wires as int >= 2 + pow2(bits as nat) + bits,
            config.num_wires <= 0xFFFF_FFFF,
        ensures
            r.bits == bits,
            r.num_copies as int == {
                let vs = pow2(bits as nat) as int;
                let a = (config.num_routed_wires as int) / (2 + vs);
                let b = (config.num_wires as int) / (2 + vs + bits);
                if a <= b {
                    a
                } else {
                    b
                }
            },
            r.wf(),
    {
        proof {
            lemma_pow2_pos(bits as nat);
            lemma2_to64();
            if bits < 26 {
                lemma_pow2_strictly_increases(bits as nat, 26);
            }
            lemma_u64_shl_is_mul(1u64, bits as u64);
        }
        let vec_size: usize = (1u64 << (bits as u64)) as usize;
        let max_copies_routed = config.num_routed_wires / (2 + vec_size);
        let max_copies_all = config.num_wires / (2 + vec_size + bits);
        let max_copies = if max_copies_routed <= max_copies_all {
            max_copies_routed
        } else {
            max_copies_all
        };
        proof {
            let d = 2 + pow2(bits as nat) as int + bits as int;
            lemma_fundamental_div_mod(config.num_wires as int, d);
            vstd::arithmetic::div_mod::lemma_mod_bound(config.num_wires as int, d);
            assert(d * ((config.num_wires as int) / d) <= config.num_wires as int);
            assert(d * (max_copies as int) <= d * ((config.num_wires as int) / d)) by {
                lemma_mul_inequality(max_copies as int, (config.num_wires as int) / d, d);
                assert((max_copies as int) * d == d * (max_copies as int)) by (nonlinear_arith);
                assert(((config.num_wires as int) / d) * d == d * ((config.num_wires as int)
                    / d)) by (nonlinear_arith);
            }
            assert((2 + pow2(bits as nat) as int + bits as int) * (max_copies as int) == d * (
            max_copies as int));
            vstd::arithmetic::div_mod::lemma_div_non_zero(config.num_routed_wires as int, 2 + pow2(
                bits as nat,
            ) as int);
            vstd::arithmetic::div_mod::lemma_div_non_zero(config.num_wires as int, d);
        }
        Self::new(max_copies, bits)
    }

    pub fn vec_size(&self) -> (r: usize)
        requires
            self.wf(),
        ensures
            r as int == self.spec_vec_size(),
            2 <= r <= 0x0400_0000,
    {
        proof {
            self.lemma_wf_bounds();
            lemma_u64_shl_is_mul(1u64, self.bits as u64);
        }
        (1u64 << (self.bits as u64)) as usize
    }

    pub fn wire_access_index(&self, copy: usize) -> (r: usize)
        requires
            self.wf(),
            copy < self.num_copies,
        ensures
            r as int == self.spec_wire_access_index(copy as int),
            (r as int) < self.spec_num_wires(),
    {
        proof {
            self.lemma_wf_bounds();
            self.lemma_copy_block(copy as int);
        }
        let vs = self.vec_size();
        (2 + vs) * copy
    }

    pub fn wire_claimed_element(&self, copy: usize) -> (r: usize)
        requires
            self.wf(),
            copy < self.num_copies,
        ensures
            r as int == self.spec_wire_claimed_element(copy as int),
            (r as int) < self.spec_num_wires(),
    {
        proof {
            self.lemma_wf_bounds();
            self.lemma_copy_block(copy as int);
        }
        let vs = self.vec_size();
        (2 + vs) * copy + 1
    }

    pub fn wire_list_item(&self, i: usize, copy: usize) -> (r: usize)
        requires
            self.wf(),
            i < self.spec_vec_size(),
            copy < self.num_copies,
        ensures
            r as int == self.spec_wire_list_item(i as int, copy as int),
            (r as int) < self.spec_num_wires(),
    {
        proof {
            self.lemma_wf_bounds();
            self.lemma_copy_block(copy as int);
        }
        let vs = self.vec_size();
        (2 + vs) * copy + 2 + i
    }

    pub fn start_of_intermediate_wires(&self) -> (r: usize)
        requires
            self.wf(),
        ensures
            r as int == self.spec_start_of_intermediate_wires(),
    {
        proof {
            self.lemma_wf_bounds();
            self.lemma_copy_block(self.num_copies as int - 1);
            assert((2 + self.spec_vec_size()) * (self.num_copies - 1) + 2 + self.spec_vec_size()
                == (2 + self.spec_vec_size()) * (self.num_copies as int)) by (nonlinear_arith);
        }
        let vs = self.vec_size();
        (2 + vs) * self.num_copies
    }

    /// All per-copy blocks are routed; only the bit wires are not.
    pub fn num_routed_wires(&self) -> (r: usize)
        requires
            self.wf(),
        ensures
            r as int == self.spec_start_of_intermediate_wires(),
    {
        self.start_of_intermediate_wires()
    }

    /// An intermediate wire holding the purported binary decomposition of the
    /// access index.
    pub fn wire_bit(&self, i: usize, copy: usize) -> (r: usize)
        requires
            self.wf(),
            i < self.bits,
            copy < self.num_copies,
        ensures
            r as int == self.spec_wire_bit(i as int, copy as int),
            (r as int) < self.spec_num_wires(),
    {
        proof {
            self.lemma_wf_bounds();
            self.lemma_bit_block(copy as int);
        }
        let start = self.start_of_intermediate_wires();
        start + copy * self.bits + i
    }

    pub fn num_wires(&self) -> (r: usize)
        requires
            self.wf(),
        ensures
            r as int == self.spec_num_wires(),
    {
        proof {
            self.lemma_wf_bounds();
            self.lemma_bit_block(self.num_copies as int - 1);
            assert((self.num_copies as int - 1) * (self.bits as int) + self.bits
                == (self.num_copies as int) * (self.bits as int)) by (nonlinear_arith);
        }
        let r = self.wire_bit(self.bits - 1, self.num_copies - 1);
        r + 1
    }

    pub fn num_constants(&self) -> (r: usize)
        ensures
            r == 0,
    {
        0
    }

    /// The declared maximum constraint degree.
    pub fn degree(&self) -> (r: usize)
        requires
            self.wf(),
        ensures
            r as int == self.spec_degree(),
    {
        self.bits + 1
    }

    pub fn num_constraints(&self) -> (r: usize)
        requires
            self.wf(),
        ensures
            r as int == self.spec_num_constraints(),
    {
        proof {
            self.lemma_wf_bounds();
        }
        let constraints_per_copy = self.bits + 2;
        self.num_copies * constraints_per_copy
    }

    /// The bit wires of one copy, as extension residues.
    pub open spec fn e_wires_bits(self, wires: Seq<(int, int)>, copy: int) -> Seq<(int, int)> {
        Seq::new(self.bits as nat, |i: int| wires[self.spec_wire_bit(i, copy)])
    }

    /// The list-item wires of one copy, as extension residues.
    pub open spec fn e_wires_items(self, wires: Seq<(int, int)>, copy: int) -> Seq<(int, int)> {
        Seq::new(self.spec_vec_size() as nat, |i: int| wires[self.spec_wire_list_item(i, copy)])
    }

    /// The value of constraint `j` over the extension field: per copy, the
    /// bit boolean checks, then the index reconstruction check, then the
    /// fold check.
    pub open spec fn e_constraint(self, wires: Seq<(int, int)>, j: int) -> (int, int) {
        let per_copy = self.bits + 2;
        let copy = j / (per_copy as int);
        let k = j % (per_copy as int);
        if k < self.bits {
            e_bool_check(self.e_wires_bits(wires, copy)[k])
        } else if k == self.bits {
            crate::extension::e_sub(
                e_recon(self.e_wires_bits(wires, copy)),
                wires[self.spec_wire_access_index(copy)],
            )
        } else {
            crate::extension::e_sub(
                e_fold_all(self.e_wires_items(wires, copy), self.e_wires_bits(wires, copy))[0],
                wires[self.spec_wire_claimed_element(copy)],
            )
        }
    }

    /// Constraint `copy * (bits + 2) + k` belongs to `copy` at offset `k`.
    pub proof fn lemma_constraint_slot(self, copy: int, k: int)
        requires
            self.wf(),
            0 <= copy,
            0 <= k < self.bits + 2,
        ensures
            (copy * (self.bits + 2) + k) / (self.bits as int + 2) == copy,
            (copy * (self.bits + 2) + k) % (self.bits as int + 2) == k,
    {
        lemma_fundamental_div_mod_converse(
            copy * (self.bits + 2) + k,
            self.bits as int + 2,
            copy,
            k,
        );
    }

    /// Evaluates the constraints at a single extension-field point.
    pub fn eval_unfiltered(&self, vars: &EvaluationVars) -> (r: Vec<QuadraticExtension>)
        requires
            self.wf(),
            vars.local_wires@.len() >= self.spec_num_wires(),
        ensures
            r@.len() == self.spec_num_constraints(),
            forall|j: int|
                0 <= j < r@.len() ==> (#[trigger] r@[j])@ == self.e_constraint(
                    vars.wire_values(),
                    j,
                ),
    {
        proof {
            self.lemma_wf_bounds();
        }
        let ghost w = vars.wire_values();
        let num_copies = self.num_copies;
        let bits = self.bits;
        let vs = self.vec_size();
        let mut constraints: Vec<QuadraticExtension> = Vec::new();
        proof {
            assert(0int * (bits as int + 2) == 0) by (nonlinear_arith);
            assert(0 <= self.spec_num_constraints()) by (nonlinear_arith)
                requires
                    self.num_copies >= 1 && self.bits >= 1,
            ;
        }
        for copy in 0..num_copies
            invariant
                self.wf(),
                num_copies == self.num_copies,
                bits == self.bits,
                vs as int == self.spec_vec_size(),
                vars.local_wires@.len() >= self.spec_num_wires(),
                w == vars.wire_values(),
                constraints@.len() == copy * (bits + 2),
                constraints@.len() <= self.spec_num_constraints(),
                forall|j: int|
                    0 <= j < constraints@.len() ==> (#[trigger] constraints@[j])@
                        == self.e_constraint(w, j),
        {
            proof {
                self.lemma_wf_bounds();
                lemma_mul_inequality(copy as int + 1, num_copies as int, bits as int + 2);
                assert((copy + 1) * (bits + 2) == copy * (bits + 2) + (bits + 2))
                    by (nonlinear_arith);
            }
            // Gather this copy's wires.
            let access_index = vars.local_wires[self.wire_access_index(copy)];
            let claimed_element = vars.local_wires[self.wire_claimed_element(copy)];
            let mut bit_vals: Vec<QuadraticExtension> = Vec::new();
            for i in 0..bits
                invariant
                    self.wf(),
                    bits == self.bits,
                    copy < self.num_copies,
                    vars.local_wires@.len() >= self.spec_num_wires(),
                    w == vars.wire_values(),
                    bit_vals@.len() == i,
                    forall|t: int|
                        0 <= t < i ==> (#[trigger] bit_vals@[t])@ == self.e_wires_bits(w, copy as int)[t],
            {
                bit_vals.push(vars.local_wires[self.wire_bit(i, copy)]);
            }
            let mut list_items: Vec<QuadraticExtension> = Vec::new();
            for i in 0..vs
                invariant
                    self.wf(),
                    vs as int == self.spec_vec_size(),
                    copy < self.num_copies,
                    vars.local_wires@.len() >= self.spec_num_wires(),
                    w == vars.wire_values(),
                    list_items@.len() == i,
                    forall|t: int|
                        0 <= t < i ==> (#[trigger] list_items@[t])@ == self.e_wires_items(
                            w,
                            copy as int,
                        )[t],
            {
                list_items.push(vars.local_wires[self.wire_list_item(i, copy)]);
            }
            let ghost bs = self.e_wires_bits(w, copy as int);
            let ghost items0 = self.e_wires_items(w, copy as int);
            proof {
                assert(ext_views(bit_vals@) =~= bs);
                assert(ext_views(list_items@) =~= items0);
            }

            // Each bit wire value is boolean.
            let one = QuadraticExtension::one();
            for i in 0..bits
                invariant
                    self.wf(),
                    bits == self.bits,
                    copy < self.num_copies,
                    w == vars.wire_values(),
                    one@ == (1int, 0int),
                    bit_vals@.len() == bits,
                    forall|t: int|
                        0 <= t < bits ==> (#[trigger] bit_vals@[t])@ == self.e_wires_bits(
                            w,
                            copy as int,
                        )[t],
                    constraints@.len() == copy * (bits + 2) + i,
                    constraints@.len() <= self.spec_num_constraints(),
                    forall|j: int|
                        0 <= j < constraints@.len() ==> (#[trigger] constraints@[j])@
                            == self.e_constraint(w, j),
            {
                let b = bit_vals[i];
                constraints.push(b.mul(b.sub(one)));
                proof {
                    self.lemma_constraint_slot(copy as int, i as int);
                    self.lemma_wf_bounds();
                    lemma_mul_inequality(copy as int + 1, self.num_copies as int, bits as int + 2);
                    assert((copy + 1) * (bits + 2) == copy * (bits + 2) + (bits + 2))
                        by (nonlinear_arith);
                }
            }

            // The binary decomposition reconstructs the access index.
            let mut acc = QuadraticExtension::zero();
            let mut i = bits;
            while i > 0
                invariant
                    self.wf(),
                    bits == self.bits,
                    copy < self.num_copies,
                    w == vars.wire_values(),
                    i <= bits,
                    bs == self.e_wires_bits(w, copy as int),
                    bit_vals@.len() == bits,
                    forall|t: int| 0 <= t < bits ==> (#[trigger] bit_vals@[t])@ == bs[t],
                    acc@ == e_recon(bs.skip(i as int)),
                decreases i,
            {
                i = i - 1;
                acc = acc.double().add(bit_vals[i]);
                proof {
                    assert(bs.skip(i as int).skip(1) =~= bs.skip(i as int + 1));
                    assert(bs.skip(i as int)[0] == bs[i as int]);
                }
            }
            proof {
                assert(bs.skip(0) =~= bs);
            }
            constraints.push(acc.sub(access_index));
            proof {
                self.lemma_constraint_slot(copy as int, bits as int);
            }

            // Fold the list level by level, selecting by the bits.
            let mut cur = list_items;
            let mut width = vs;
            for lvl in 0..bits
                invariant
                    self.wf(),
                    bits == self.bits,
                    copy < self.num_copies,
                    w == vars.wire_values(),
                    bs == self.e_wires_bits(w, copy as int),
                    items0 == self.e_wires_items(w, copy as int),
                    bit_vals@.len() == bits,
                    forall|t: int| 0 <= t < bits ==> (#[trigger] bit_vals@[t])@ == bs[t],
                    width as nat == pow2((bits - lvl) as nat),
                    cur@.len() == width,
                    width >= 1,
                    ext_views(cur@) == e_fold_all(items0, bs.take(lvl as int)),
            {
                let b = bit_vals[lvl];
                let half = width / 2;
                proof {
                    lemma_pow2_adds((bits - lvl - 1) as nat, 1);
                    lemma2_to64();
                    lemma_pow2_pos((bits - lvl - 1) as nat);
                }
                let mut next: Vec<QuadraticExtension> = Vec::new();
                for p in 0..half
                    invariant
                        half == width / 2,
                        width as nat == pow2((bits - lvl) as nat),
                        2 * half == width,
                        cur@.len() == width,
                        lvl < bits,
                        bit_vals@.len() == bits,
                        b == bit_vals@[lvl as int],
                        next@.len() == p,
                        forall|q: int|
                            0 <= q < p ==> (#[trigger] next@[q])@ == crate::constraints::e_select(
                                b@,
                                cur@[2 * q]@,
                                cur@[2 * q + 1]@,
                            ),
                {
                    let x = cur[2 * p];
                    let y = cur[2 * p + 1];
                    next.push(x.add(b.mul(y.sub(x))));
                }
                proof {
                    assert(ext_views(next@) =~= e_fold_once(ext_views(cur@), b@));
                    lemma_e_fold_all_push(items0, bs.take(lvl as int), bs[lvl as int]);
                    assert(bs.take(lvl as int).push(bs[lvl as int]) =~= bs.take(lvl as int + 1));
                }
                cur = next;
                width = half;
            }
            proof {
                assert(bs.take(bits as int) =~= bs);
                lemma2_to64();
                assert(cur@.len() == 1);
                assert(ext_views(cur@)[0] == cur@[0]@);
            }
            constraints.push(cur[0].sub(claimed_element));
            proof {
                self.lemma_constraint_slot(copy as int, bits as int + 1);
            }
        }
        constraints
    }
}


impl RandomAccessGate {
    /// The bit wires of one copy, as base-field residues.
    pub open spec fn b_wires_bits(self, wires: Seq<int>, copy: int) -> Seq<int> {
        Seq::new(self.bits as nat, |i: int| wires[self.spec_wire_bit(i, copy)])
    }

    /// The list-item wires of one copy, as base-field residues.
    pub open spec fn b_wires_items(self, wires: Seq<int>, copy: int) -> Seq<int> {
        Seq::new(self.spec_vec_size() as nat, |i: int| wires[self.spec_wire_list_item(i, copy)])
    }

    /// The value of constraint `j` over the base field.
    pub open spec fn constraint_m(self, wires: Seq<int>, j: int) -> int {
        let per_copy = self.bits + 2;
        let copy = j / (per_copy as int);
        let k = j % (per_copy as int);
        if k < self.bits {
            bool_check_m(self.b_wires_bits(wires, copy)[k])
        } else if k == self.bits {
            sub_m(
                recon_m(self.b_wires_bits(wires, copy)),
                wires[self.spec_wire_access_index(copy)],
            )
        } else {
            sub_m(
                fold_all_m(self.b_wires_items(wires, copy), self.b_wires_bits(wires, copy))[0],
                wires[self.spec_wire_claimed_element(copy)],
            )
        }
    }

    /// Cross-mode equivalence: on base-field inputs embedded into the
    /// extension, every constraint evaluates in the extension to the
    /// embedding of its base-field value. Together with the lane-wise
    /// contract of the packed evaluator, this ties the single-point
    /// extension mode and the batched base-field mode to one constraint
    /// family.
    pub proof fn lemma_cross_mode_equivalence(self, wires: Seq<int>, j: int)
        requires
            self.wf(),
            all_canonical(wires),
            wires.len() >= self.spec_num_wires(),
            0 <= j < self.spec_num_constraints(),
        ensures
            self.e_constraint(embed_seq(wires), j) == embed_m(self.constraint_m(wires, j)),
    {
        self.lemma_wf_bounds();
        let per = self.bits as int + 2;
        let nc = self.num_copies as int;
        lemma_fundamental_div_mod(j, per);
        vstd::arithmetic::div_mod::lemma_mod_bound(j, per);
        let copy = j / per;
        let k = j % per;
        assert(0 <= copy && copy < nc) by (nonlinear_arith)
            requires
                j == per * copy + k,
                0 <= k < per,
                0 <= j,
                j < nc * per,
                per > 0,
        ;
        self.lemma_copy_block(copy);
        self.lemma_bit_block(copy);
        let ew = embed_seq(wires);
        let bbits = self.b_wires_bits(wires, copy);
        let bitems = self.b_wires_items(wires, copy);
        assert(ew.len() == wires.len());
        assert forall|i: int| 0 <= i < self.bits implies {
            &&& 0 <= self.spec_wire_bit(i, copy) < wires.len()
            &&& self.e_wires_bits(ew, copy)[i] == embed_m(bbits[i])
            &&& 0 <= #[trigger] bbits[i] < FIELD_ORDER as int
        } by {
            assert(0 <= self.spec_wire_bit(i, copy) < self.spec_num_wires());
        }
        assert(self.e_wires_bits(ew, copy) =~= embed_seq(bbits));
        assert forall|i: int| 0 <= i < self.spec_vec_size() implies {
            &&& 0 <= self.spec_wire_list_item(i, copy) < wires.len()
            &&& self.e_wires_items(ew, copy)[i] == embed_m(bitems[i])
            &&& 0 <= #[trigger] bitems[i] < FIELD_ORDER as int
        } by {
            assert(0 <= self.spec_wire_list_item(i, copy) < self.spec_num_wires());
        }
        assert(self.e_wires_items(ew, copy) =~= embed_seq(bitems));
        assert(all_canonical(bbits));
        assert(all_canonical(bitems));
        if k < self.bits {
            lemma_embed_bool_check(bbits[k]);
        } else if k == self.bits {
            lemma_embed_recon(bbits);
            lemma_recon_range(bbits);
            let a = wires[self.spec_wire_access_index(copy)];
            assert(0 <= self.spec_wire_access_index(copy) < self.spec_num_wires());
            assert(ew[self.spec_wire_access_index(copy)] == embed_m(a));
            lemma_embed_sub(recon_m(bbits), a);
        } else {
            lemma_embed_fold_all(bitems, bbits);
            lemma_fold_all_singleton(bitems, bbits);
            lemma_fold_all_canonical(bitems, bbits);
            let f = fold_all_m(bitems, bbits);
            assert(embed_seq(f)[0] == embed_m(f[0]));
            assert(0 <= f[0] < FIELD_ORDER as int);
            let c = wires[self.spec_wire_claimed_element(copy)];
            assert(0 <= self.spec_wire_claimed_element(copy) < self.spec_num_wires());
            assert(ew[self.spec_wire_claimed_element(copy)] == embed_m(c));
            lemma_embed_sub(f[0], c);
        }
    }
}


/// One batch of evaluation points over the base field, one row of wire
/// values per entry.
#[derive(Clone, Debug)]
pub struct EvaluationVarsBaseBatch {
    pub local_wires: Vec<Vec<FieldElement>>,
}

/// The residues of one row of base-field wire values.
pub open spec fn row_residues(row: Seq<FieldElement>) -> Seq<int> {
    Seq::new(row.len(), |i: int| row[i]@)
}

/// A batch of evaluation points in packed form: one packed value per wire,
/// one lane per row.
#[derive(Clone, Debug)]
pub struct EvaluationVarsBasePacked {
    pub local_wires: Vec<PackedBase>,
}

impl EvaluationVarsBasePacked {
    /// Every packed wire carries the same number of lanes.
    pub open spec fn uniform(self, width: int) -> bool {
        forall|w: int|
            0 <= w < self.local_wires@.len() ==> (#[trigger] self.local_wires@[w])@.len() == width
    }

    /// The wire residues of one lane.
    pub open spec fn lane_wires(self, r: int) -> Seq<int> {
        Seq::new(self.local_wires@.len(), |w: int| self.local_wires@[w]@[r])
    }
}

/// Collects constraint values of a packed evaluation: the values of
/// constraint `c` occupy the block at offset `c * width` of the buffer, one
/// slot per lane.
#[derive(Clone, Debug)]
pub struct StridedConstraintConsumer {
    pub buffer: Vec<FieldElement>,
    pub width: usize,
}

impl StridedConstraintConsumer {
    pub fn new(width: usize) -> (r: Self)
        ensures
            r.buffer@.len() == 0,
            r.width == width,
    {
        StridedConstraintConsumer { buffer: Vec::new(), width }
    }

    /// Emits one constraint's values, one per lane.
    pub fn one(&mut self, vals: &PackedBase)
        requires
            vals@.len() == old(self).width,
        ensures
            final(self).width == old(self).width,
            final(self).buffer@.len() == old(self).buffer@.len() + old(self).width,
            final(self).buffer@.subrange(0, old(self).buffer@.len() as int) == old(self).buffer@,
            forall|r: int|
                0 <= r < old(self).width ==> (#[trigger] final(self).buffer@[old(
                    self,
                ).buffer@.len() + r])@ == vals@[r],
    {
        let w = self.width;
        for r in 0..w
            invariant
                w == self.width,
                vals@.len() == w,
                self.buffer@.len() == old(self).buffer@.len() + r,
                self.buffer@.subrange(0, old(self).buffer@.len() as int) == old(self).buffer@,
                forall|q: int|
                    0 <= q < r ==> (#[trigger] self.buffer@[old(self).buffer@.len() + q])@
                        == vals@[q],
        {
            self.buffer.push(vals.lane(r));
            proof {
                assert(self.buffer@.subrange(0, old(self).buffer@.len() as int) =~= old(
                    self,
                ).buffer@);
            }
        }
    }
}

impl RandomAccessGate {
    /// The direct per-row base-field path is disallowed by design: evaluation
    /// must route through the packed evaluator.
    pub fn eval_unfiltered_base_one(
        &self,
        _vars: &EvaluationVarsBaseBatch,
        _yield_constr: &mut StridedConstraintConsumer,
    ) -> (r: Result<(), CircuitError>)
        ensures
            r == Result::<(), CircuitError>::Err(CircuitError::DisallowedBaseRowEvaluation),
            *final(_yield_constr) == *old(_yield_constr),
    {
        Err(CircuitError::DisallowedBaseRowEvaluation)
    }

    /// Evaluates the constraints on a batch of base-field rows at once, one
    /// packed lane per row; the values of constraint `c` for row `r` land at
    /// offset `c * width + r` of the consumer's buffer.
    pub fn eval_unfiltered_base_packed(
        &self,
        vars: &EvaluationVarsBasePacked,
        yield_constr: &mut StridedConstraintConsumer,
    )
        requires
            self.wf(),
            vars.local_wires@.len() >= self.spec_num_wires(),
            vars.uniform(old(yield_constr).width as int),
        ensures
            final(yield_constr).width == old(yield_constr).width,
            final(yield_constr).buffer@.len() == old(yield_constr).buffer@.len()
                + self.spec_num_constraints() * old(yield_constr).width,
            final(yield_constr).buffer@.subrange(0, old(yield_constr).buffer@.len() as int) == old(
                yield_constr,
            ).buffer@,
            forall|c: int, r: int|
                0 <= c < self.spec_num_constraints() && 0 <= r < old(yield_constr).width ==> (
                #[trigger] final(yield_constr).buffer@[old(yield_constr).buffer@.len() + c * old(
                    yield_constr,
                ).width + r])@ == self.constraint_m(vars.lane_wires(r), c),
    {
        proof {
            self.lemma_wf_bounds();
            assert(0int * (self.bits as int + 2) == 0) by (nonlinear_arith);
            let ghost ww = old(yield_constr).width as int;
            assert((0int * (self.bits as int + 2)) * ww == 0) by (nonlinear_arith);
            assert(yield_constr.buffer@.subrange(0, yield_constr.buffer@.len() as int)
                =~= yield_constr.buffer@);
        }
        let ghost base = old(yield_constr).buffer@.len() as int;
        let width = yield_constr.width;
        let num_copies = self.num_copies;
        let bits = self.bits;
        let vs = self.vec_size();
        let ghost emitted: int = 0;
        for copy in 0..num_copies
            invariant
                self.wf(),
                num_copies == self.num_copies,
                bits == self.bits,
                vs as int == self.spec_vec_size(),
                vars.local_wires@.len() >= self.spec_num_wires(),
                vars.uniform(width as int),
                yield_constr.width == width,
                base == old(yield_constr).buffer@.len(),
                yield_constr.buffer@.len() == base + (copy * (bits + 2)) * width,
                copy * (bits + 2) <= self.spec_num_constraints(),
                yield_constr.buffer@.subrange(0, base) == old(yield_constr).buffer@,
                forall|c: int, r: int|
                    0 <= c < copy * (bits + 2) && 0 <= r < width ==> (
                    #[trigger] yield_constr.buffer@[base + c * width + r])@ == self.constraint_m(
                        vars.lane_wires(r),
                        c,
                    ),
        {
            proof {
                self.lemma_wf_bounds();
                lemma_mul_inequality(copy as int + 1, self.num_copies as int, bits as int + 2);
                assert((copy + 1) * (bits + 2) == copy * (bits + 2) + (bits + 2))
                    by (nonlinear_arith);
            }
            let a_idx = self.wire_access_index(copy);
            let c_idx = self.wire_claimed_element(copy);

            // Each bit wire value is boolean.
            let one = FieldElement::one();
            for i in 0..bits
                invariant
                    self.wf(),
                    bits == self.bits,
                    copy < self.num_copies,
                    vs as int == self.spec_vec_size(),
                    vars.local_wires@.len() >= self.spec_num_wires(),
                    vars.uniform(width as int),
                    one@ == 1,
                    yield_constr.width == width,
                    base == old(yield_constr).buffer@.len(),
                    yield_constr.buffer@.len() == base + (copy * (bits + 2) + i) * width,
                    copy * (bits + 2) + i <= self.spec_num_constraints(),
                    yield_constr.buffer@.subrange(0, base) == old(yield_constr).buffer@,
                    forall|c: int, r: int|
                        0 <= c < copy * (bits + 2) + i && 0 <= r < width ==> (
                        #[trigger] yield_constr.buffer@[base + c * width + r])@
                            == self.constraint_m(vars.lane_wires(r), c),
            {
                let b_idx = self.wire_bit(i, copy);
                let p = vars.local_wires[b_idx].mul(&vars.local_wires[b_idx].sub_scalar(one));
                let ghost pre = yield_constr.buffer@;
                yield_constr.one(&p);
                proof {
                    self.lemma_constraint_slot(copy as int, i as int);
                    self.lemma_wf_bounds();
                    lemma_mul_inequality(copy as int + 1, self.num_copies as int, bits as int + 2);
                    assert((copy + 1) * (bits + 2) == copy * (bits + 2) + (bits + 2))
                        by (nonlinear_arith);
                    let cnew = copy as int * (bits as int + 2) + i;
                    assert((cnew + 1) * width == cnew * width + width) by (nonlinear_arith);
                    assert(yield_constr.buffer@.subrange(0, base) =~= old(
                        yield_constr,
                    ).buffer@);
                    assert forall|r: int| 0 <= r < width implies (
                        #[trigger] yield_constr.buffer@[base + cnew * width + r])@
                        == self.constraint_m(vars.lane_wires(r), cnew) by {
                        assert(yield_constr.buffer@[pre.len() + r] == yield_constr.buffer@[base
                            + cnew * width + r]);
                        assert(p@[r] == crate::field::mul_m(
                            vars.lane_wires(r)[self.spec_wire_bit(i as int, copy as int)],
                            crate::field::sub_m(
                                vars.lane_wires(r)[self.spec_wire_bit(i as int, copy as int)],
                                1,
                            ),
                        ));
                        assert(self.b_wires_bits(vars.lane_wires(r), copy as int)[i as int]
                            == vars.lane_wires(r)[self.spec_wire_bit(i as int, copy as int)]);
                    }
                    assert forall|c: int, r: int|
                        0 <= c < cnew && 0 <= r < width implies (
                        #[trigger] yield_constr.buffer@[base + c * width + r])@
                        == self.constraint_m(vars.lane_wires(r), c) by {
                        assert(0 <= c * width && c * width + width <= cnew * width)
                            by (nonlinear_arith)
                            requires
                                0 <= c < cnew && width >= 0 && 0 <= r < width,
                        ;
                        assert(yield_constr.buffer@[base + c * width + r] == pre[base + c * width
                            + r]);
                    }
                }
            }

            // The binary decomposition reconstructs the access index.
            let mut acc = PackedBase::zeros(width);
            let mut i = bits;
            while i > 0
                invariant
                    self.wf(),
                    bits == self.bits,
                    copy < self.num_copies,
                    vars.local_wires@.len() >= self.spec_num_wires(),
                    vars.uniform(width as int),
                    i <= bits,
                    acc@.len() == width,
                    forall|r: int|
                        0 <= r < width ==> #[trigger] acc@[r] == recon_m(
                            self.b_wires_bits(vars.lane_wires(r), copy as int).skip(i as int),
                        ),
                decreases i,
            {
                i = i - 1;
                let b_idx = self.wire_bit(i, copy);
                acc = acc.add(&acc).add(&vars.local_wires[b_idx]);
                proof {
                    assert forall|r: int| 0 <= r < width implies #[trigger] acc@[r] == recon_m(
                        self.b_wires_bits(vars.lane_wires(r), copy as int).skip(i as int),
                    ) by {
                        let bsr = self.b_wires_bits(vars.lane_wires(r), copy as int);
                        assert(bsr.skip(i as int).skip(1) =~= bsr.skip(i as int + 1));
                        assert(bsr.skip(i as int)[0] == bsr[i as int]);
                        assert(bsr[i as int] == vars.lane_wires(r)[self.spec_wire_bit(
                            i as int,
                            copy as int,
                        )]);
                    }
                }
            }
            let p_recon = acc.sub(&vars.local_wires[a_idx]);
            let ghost pre_recon = yield_constr.buffer@;
            yield_constr.one(&p_recon);
            proof {
                self.lemma_constraint_slot(copy as int, bits as int);
                let cnew = copy as int * (bits as int + 2) + bits as int;
                assert((cnew + 1) * width == cnew * width + width) by (nonlinear_arith);
                assert(yield_constr.buffer@.subrange(0, base) =~= old(yield_constr).buffer@);
                assert forall|r: int| 0 <= r < width implies (
                    #[trigger] yield_constr.buffer@[base + cnew * width + r])@
                    == self.constraint_m(vars.lane_wires(r), cnew) by {
                    let bsr = self.b_wires_bits(vars.lane_wires(r), copy as int);
                    assert(bsr.skip(0) =~= bsr);
                    assert(yield_constr.buffer@[pre_recon.len() + r] == yield_constr.buffer@[base
                        + cnew * width + r]);
                }
                assert forall|c: int, r: int|
                    0 <= c < cnew && 0 <= r < width implies (
                    #[trigger] yield_constr.buffer@[base + c * width + r])@ == self.constraint_m(
                        vars.lane_wires(r),
                        c,
                    ) by {
                    assert(0 <= c * width && c * width + width <= cnew * width)
                        by (nonlinear_arith)
                        requires
                            0 <= c < cnew && width >= 0 && 0 <= r < width,
                    ;
                    assert(yield_constr.buffer@[base + c * width + r] == pre_recon[base + c
                        * width + r]);
                }
            }

            // Fold the list level by level, selecting by the bits.
            let mut cur: Vec<PackedBase> = Vec::new();
            for t in 0..vs
                invariant
                    self.wf(),
                    vs as int == self.spec_vec_size(),
                    copy < self.num_copies,
                    vars.local_wires@.len() >= self.spec_num_wires(),
                    vars.uniform(width as int),
                    cur@.len() == t,
                    forall|k: int| 0 <= k < t ==> (#[trigger] cur@[k])@.len() == width,
                    forall|r: int, k: int|
                        0 <= r < width && 0 <= k < t ==> #[trigger] cur@[k]@[r]
                            == self.b_wires_items(vars.lane_wires(r), copy as int)[k],
            {
                let w_idx = self.wire_list_item(t, copy);
                cur.push(vars.local_wires[w_idx].duplicate());
            }
            let mut cur_width = vs;
            for lvl in 0..bits
                invariant
                    self.wf(),
                    bits == self.bits,
                    vs as int == self.spec_vec_size(),
                    copy < self.num_copies,
                    vars.local_wires@.len() >= self.spec_num_wires(),
                    vars.uniform(width as int),
                    cur_width as nat == pow2((bits - lvl) as nat),
                    cur@.len() == cur_width,
                    cur_width >= 1,
                    forall|k: int| 0 <= k < cur@.len() ==> (#[trigger] cur@[k])@.len() == width,
                    forall|r: int|
                        0 <= r < width ==> #[trigger] lane_of(cur@, r) == fold_all_m(
                            self.b_wires_items(vars.lane_wires(r), copy as int),
                            self.b_wires_bits(vars.lane_wires(r), copy as int).take(lvl as int),
                        ),
            {
                let b_idx = self.wire_bit(lvl, copy);
                let half = cur_width / 2;
                proof {
                    lemma_pow2_adds((bits - lvl - 1) as nat, 1);
                    lemma2_to64();
                    lemma_pow2_pos((bits - lvl - 1) as nat);
                }
                let mut next: Vec<PackedBase> = Vec::new();
                for p in 0..half
                    invariant
                        self.wf(),
                        bits == self.bits,
                        lvl < bits,
                        copy < self.num_copies,
                        vars.local_wires@.len() >= self.spec_num_wires(),
                        vars.uniform(width as int),
                        b_idx as int == self.spec_wire_bit(lvl as int, copy as int),
                        b_idx < vars.local_wires@.len(),
                        half == cur_width / 2,
                        2 * half == cur_width,
                        cur@.len() == cur_width,
                        forall|k: int|
                            0 <= k < cur@.len() ==> (#[trigger] cur@[k])@.len() == width,
                        next@.len() == p,
                        forall|k: int|
                            0 <= k < p ==> (#[trigger] next@[k])@.len() == width,
                        forall|r: int, q: int|
                            0 <= r < width && 0 <= q < p ==> #[trigger] next@[q]@[r]
                                == crate::constraints::select_m(
                                vars.local_wires@[b_idx as int]@[r],
                                cur@[2 * q]@[r],
                                cur@[2 * q + 1]@[r],
                            ),
                {
                    let x = &cur[2 * p];
                    let y = &cur[2 * p + 1];
                    let d = y.sub(x);
                    let m = vars.local_wires[b_idx].mul(&d);
                    next.push(x.add(&m));
                }
                proof {
                    assert forall|r: int| 0 <= r < width implies #[trigger] lane_of(next@, r)
                        == fold_all_m(
                        self.b_wires_items(vars.lane_wires(r), copy as int),
                        self.b_wires_bits(vars.lane_wires(r), copy as int).take(lvl as int + 1),
                    ) by {
                        let bsr = self.b_wires_bits(vars.lane_wires(r), copy as int);
                        let itr = self.b_wires_items(vars.lane_wires(r), copy as int);
                        assert(bsr[lvl as int] == vars.lane_wires(r)[self.spec_wire_bit(
                            lvl as int,
                            copy as int,
                        )]);
                        assert(vars.lane_wires(r)[self.spec_wire_bit(lvl as int, copy as int)]
                            == vars.local_wires@[b_idx as int]@[r]);
                        assert(lane_of(next@, r) =~= crate::constraints::fold_once_m(
                            lane_of(cur@, r),
                            bsr[lvl as int],
                        ));
                        crate::constraints::lemma_fold_all_push(
                            itr,
                            bsr.take(lvl as int),
                            bsr[lvl as int],
                        );
                        assert(bsr.take(lvl as int).push(bsr[lvl as int]) =~= bsr.take(
                            lvl as int + 1,
                        ));
                    }
                }
                cur = next;
                cur_width = half;
            }
            let p_fold = cur[0].sub(&vars.local_wires[c_idx]);
            let ghost pre_fold = yield_constr.buffer@;
            proof {
                lemma2_to64();
                assert(cur@.len() == 1);
            }
            yield_constr.one(&p_fold);
            proof {
                self.lemma_constraint_slot(copy as int, bits as int + 1);
                let cnew = copy as int * (bits as int + 2) + bits as int + 1;
                assert((cnew + 1) * width == cnew * width + width) by (nonlinear_arith);
                assert((copy + 1) * (bits + 2) == copy * (bits + 2) + (bits + 2))
                    by (nonlinear_arith);
                assert(yield_constr.buffer@.subrange(0, base) =~= old(yield_constr).buffer@);
                assert forall|r: int| 0 <= r < width implies (
                    #[trigger] yield_constr.buffer@[base + cnew * width + r])@
                    == self.constraint_m(vars.lane_wires(r), cnew) by {
                    let bsr = self.b_wires_bits(vars.lane_wires(r), copy as int);
                    assert(bsr.take(bits as int) =~= bsr);
                    assert(lane_of(cur@, r)[0] == cur@[0]@[r]);
                    assert(yield_constr.buffer@[pre_fold.len() + r] == yield_constr.buffer@[base
                        + cnew * width + r]);
                }
                assert forall|c: int, r: int|
                    0 <= c < cnew && 0 <= r < width implies (
                    #[trigger] yield_constr.buffer@[base + c * width + r])@ == self.constraint_m(
                        vars.lane_wires(r),
                        c,
                    ) by {
                    assert(0 <= c * width && c * width + width <= cnew * width)
                        by (nonlinear_arith)
                        requires
                            0 <= c < cnew && width >= 0 && 0 <= r < width,
                    ;
                    assert(yield_constr.buffer@[base + c * width + r] == pre_fold[base + c
                        * width + r]);
                }
            }
        }
        proof {
            assert((num_copies as int) * ((bits as int + 2)) * width == ((num_copies as int) * (
            bits as int + 2)) * width) by (nonlinear_arith);
        }
    }

    /// Evaluates the constraints on a batch of base-field rows by routing
    /// through the packed evaluator; the value of constraint `c` for row `r`
    /// lands at offset `c * batch + r` of the result.
    pub fn eval_unfiltered_base_batch(&self, vars_base: &EvaluationVarsBaseBatch) -> (r: Vec<
        FieldElement,
    >)
        requires
            self.wf(),
            forall|q: int|
                0 <= q < vars_base.local_wires@.len() ==> (
                #[trigger] vars_base.local_wires@[q])@.len()
                    == vars_base.local_wires@[0]@.len(),
            vars_base.local_wires@.len() > 0 ==> vars_base.local_wires@[0]@.len()
                >= self.spec_num_wires(),
        ensures
            r@.len() == self.spec_num_constraints() * vars_base.local_wires@.len(),
            forall|c: int, q: int|
                0 <= c < self.spec_num_constraints() && 0 <= q < vars_base.local_wires@.len()
                    ==> (#[trigger] r@[c * vars_base.local_wires@.len() + q])@
                    == self.constraint_m(row_residues(vars_base.local_wires@[q]@), c),
    {
        proof {
            self.lemma_wf_bounds();
        }
        let nrows = vars_base.local_wires.len();
        if nrows == 0 {
            let empty: Vec<FieldElement> = Vec::new();
            proof {
                assert(self.spec_num_constraints() * 0int == 0) by (nonlinear_arith);
            }
            return empty;
        }
        let row_len = vars_base.local_wires[0].len();
        let mut packed_wires: Vec<PackedBase> = Vec::new();
        for w in 0..row_len
            invariant
                nrows == vars_base.local_wires@.len(),
                nrows > 0,
                row_len == vars_base.local_wires@[0]@.len(),
                forall|q: int|
                    0 <= q < nrows ==> (#[trigger] vars_base.local_wires@[q])@.len() == row_len,
                packed_wires@.len() == w,
                forall|k: int|
                    0 <= k < w ==> (#[trigger] packed_wires@[k])@.len() == nrows,
                forall|k: int, q: int|
                    0 <= k < w && 0 <= q < nrows ==> #[trigger] packed_wires@[k]@[q]
                        == vars_base.local_wires@[q]@[k]@,
        {
            let mut lanes: Vec<FieldElement> = Vec::new();
            for q in 0..nrows
                invariant
                    nrows == vars_base.local_wires@.len(),
                    w < row_len,
                    forall|t: int|
                        0 <= t < nrows ==> (#[trigger] vars_base.local_wires@[t])@.len()
                            == row_len,
                    lanes@.len() == q,
                    forall|t: int|
                        0 <= t < q ==> #[trigger] lanes@[t] == vars_base.local_wires@[t]@[
                        w as int],
            {
                lanes.push(vars_base.local_wires[q][w]);
            }
            packed_wires.push(PackedBase::from_lanes(lanes));
        }
        let packed_vars = EvaluationVarsBasePacked { local_wires: packed_wires };
        let mut consumer = StridedConstraintConsumer::new(nrows);
        proof {
            assert(packed_vars.uniform(nrows as int));
        }
        self.eval_unfiltered_base_packed(&packed_vars, &mut consumer);
        proof {
            assert forall|q: int| 0 <= q < nrows implies packed_vars.lane_wires(q)
                == row_residues(vars_base.local_wires@[q]@) by {
                assert(packed_vars.lane_wires(q) =~= row_residues(vars_base.local_wires@[q]@));
            }
            assert forall|c: int, q: int|
                0 <= c < self.spec_num_constraints() && 0 <= q < nrows implies (
                #[trigger] consumer.buffer@[c * (nrows as int) + q])@ == self.constraint_m(
                    row_residues(vars_base.local_wires@[q]@),
                    c,
                ) by {
                assert((consumer.buffer@[0 + c * (nrows as int) + q])@ == self.constraint_m(
                    packed_vars.lane_wires(q),
                    c,
                ));
                assert(0 + c * (nrows as int) + q == c * (nrows as int) + q);
            }
        }
        consumer.buffer
    }
}


impl RandomAccessGate {
    /// Decides well-formedness at run time.
    pub fn is_well_formed(&self) -> (r: bool)
        ensures
            r == self.wf(),
    {
        if self.bits < 1 || self.bits > 26 || self.num_copies < 1 {
            return false;
        }
        proof {
            lemma_pow2_pos(self.bits as nat);
            lemma2_to64();
            if self.bits < 26 {
                lemma_pow2_strictly_increases(self.bits as nat, 26);
            }
            lemma_u64_shl_is_mul(1u64, self.bits as u64);
        }
        let vs: u64 = 1u64 << (self.bits as u64);
        proof {
            let a = 2 + vs as int + self.bits as int;
            let b = self.num_copies as int;
            assert(a * b < 0x1_0000_0000_0000_0000_0000_0000_0000_0000) by (nonlinear_arith)
                requires
                    0 <= a < 0x1_0000_0000_0000_0000,
                    0 <= b < 0x1_0000_0000_0000_0000,
            ;
        }
        let total: u128 = (2u128 + vs as u128 + self.bits as u128) * (self.num_copies as u128);
        total <= 0xFFFF_FFFF
    }

    /// One witness generator per copy.
    pub fn generators(&self, gate_index: usize, _local_constants: &Vec<FieldElement>) -> (r: Vec<
        AnyWitnessGenerator,
    >)
        requires
            self.wf(),
        ensures
            r@.len() == self.num_copies,
            forall|c: int|
                0 <= c < self.num_copies ==> #[trigger] r@[c] == AnyWitnessGenerator::RandomAccess(
                    SimpleGeneratorAdapter {
                        inner: RandomAccessGenerator {
                            gate_index,
                            gate: *self,
                            copy: c as usize,
                        },
                    },
                ),
    {
        let mut r: Vec<AnyWitnessGenerator> = Vec::new();
        let nc = self.num_copies;
        for c in 0..nc
            invariant
                nc == self.num_copies,
                r@.len() == c,
                forall|k: int|
                    0 <= k < c ==> #[trigger] r@[k] == AnyWitnessGenerator::RandomAccess(
                        SimpleGeneratorAdapter {
                            inner: RandomAccessGenerator {
                                gate_index,
                                gate: *self,
                                copy: k as usize,
                            },
                        },
                    ),
        {
            let g = RandomAccessGenerator { gate_index, gate: *self, copy: c };
            r.push(AnyWitnessGenerator::RandomAccess(g.adapter()));
        }
        r
    }
}

/// The bit `i` of a non-negative integer.
pub open spec fn bit_of(a: int, i: int) -> int {
    (a / pow2(i as nat) as int) % 2
}


/// The little-endian bits of a non-negative integer.
pub open spec fn bits_of(a: int, n: int) -> Seq<int> {
    Seq::new(n as nat, |i: int| bit_of(a, i))
}

/// Each bit is zero or one.
pub proof fn lemma_bit_of_bool(a: int, i: int)
    requires
        a >= 0,
        i >= 0,
    ensures
        bit_of(a, i) == 0 || bit_of(a, i) == 1,
{
    lemma_pow2_pos(i as nat);
    vstd::arithmetic::div_mod::lemma_div_pos_is_pos(a, pow2(i as nat) as int);
    vstd::arithmetic::div_mod::lemma_mod_bound(a / (pow2(i as nat) as int), 2);
}

/// Dropping the lowest bit shifts the value down by one binary place.
pub proof fn lemma_bits_shift(a: int, n: int)
    requires
        a >= 0,
        n >= 1,
    ensures
        bits_of(a, n).skip(1) =~= bits_of(a / 2, n - 1),
{
    assert forall|i: int| 0 <= i < n - 1 implies bits_of(a, n).skip(1)[i] == bits_of(
        a / 2,
        n - 1,
    )[i] by {
        lemma2_to64();
        lemma_pow2_adds(1, i as nat);
        lemma_pow2_pos(i as nat);
        vstd::arithmetic::div_mod::lemma_div_denominator(a, 2, pow2(i as nat) as int);
        assert(2 * (pow2(i as nat) as int) == pow2((i + 1) as nat) as int);
        assert(bit_of(a, i + 1) == bit_of(a / 2, i));
    }
}

/// The lowest bit is the remainder modulo two.
pub proof fn lemma_bit_of_zero(a: int)
    requires
        a >= 0,
    ensures
        bit_of(a, 0) == a % 2,
{
    lemma2_to64();
    assert(a / 1 == a) by (nonlinear_arith);
}

/// The doubled-and-added reconstruction of a value's bits recovers the value.
pub proof fn lemma_recon_of_bits(a: int, n: int)
    requires
        0 <= n <= 26,
        0 <= a < pow2(n as nat),
    ensures
        recon_m(bits_of(a, n)) == a,
    decreases n,
{
    lemma2_to64();
    if n == 0 {
        assert(bits_of(a, 0).len() == 0);
    } else {
        lemma_pow2_adds(1, (n - 1) as nat);
        assert(a == 2 * (a / 2) + a % 2) by {
            vstd::arithmetic::div_mod::lemma_fundamental_div_mod(a, 2);
        }
        vstd::arithmetic::div_mod::lemma_mod_bound(a, 2);
        assert(a / 2 < pow2((n - 1) as nat)) by (nonlinear_arith)
            requires
                a == 2 * (a / 2) + a % 2,
                0 <= a % 2 < 2,
                a < 2 * pow2((n - 1) as nat),
        ;
        vstd::arithmetic::div_mod::lemma_div_pos_is_pos(a, 2);
        lemma_bits_shift(a, n);
        lemma_recon_of_bits(a / 2, n - 1);
        let bs = bits_of(a, n);
        assert(bs.skip(1) == bits_of(a / 2, n - 1));
        let r = recon_m(bs.skip(1));
        assert(r == a / 2);
        if n < 26 {
            lemma_pow2_strictly_increases(n as nat, 26);
        }
        assert(r + r < FIELD_ORDER as int);
        lemma_small_mod((r + r) as nat, crate::field::FIELD_ORDER as nat);
        lemma_bit_of_zero(a);
        assert(bs[0] == a % 2);
        lemma_small_mod(a as nat, crate::field::FIELD_ORDER as nat);
        assert(recon_m(bs) == crate::field::add_m(crate::field::add_m(r, r), bs[0]));
    }
}

/// Folding a canonical list by a value's bits selects the entry at that
/// value.
pub proof fn lemma_fold_of_bits(items: Seq<int>, a: int, n: int)
    requires
        all_canonical(items),
        n >= 0,
        items.len() == pow2(n as nat),
        0 <= a < pow2(n as nat),
    ensures
        fold_all_m(items, bits_of(a, n)).len() == 1,
        fold_all_m(items, bits_of(a, n))[0] == items[a],
    decreases n,
{
    lemma2_to64();
    if n == 0 {
        assert(bits_of(a, 0).len() == 0);
    } else {
        lemma_pow2_adds(1, (n - 1) as nat);
        lemma_bit_of_zero(a);
        lemma_bit_of_bool(a, 0);
        vstd::arithmetic::div_mod::lemma_fundamental_div_mod(a, 2);
        vstd::arithmetic::div_mod::lemma_mod_bound(a, 2);
        vstd::arithmetic::div_mod::lemma_div_pos_is_pos(a, 2);
        assert(a / 2 < pow2((n - 1) as nat)) by (nonlinear_arith)
            requires
                a == 2 * (a / 2) + a % 2,
                0 <= a % 2 < 2,
                a < 2 * pow2((n - 1) as nat),
        ;
        let b0 = bit_of(a, 0);
        let bs = bits_of(a, n);
        assert(bs[0] == b0);
        let items2 = fold_once_m(items, b0);
        assert forall|i: int| 0 <= i < items2.len() implies #[trigger] items2[i] == items[2 * i
            + b0] by {
            let x = items[2 * i];
            let y = items[2 * i + 1];
            if b0 == 0 {
                assert(0 * crate::field::sub_m(y, x) == 0) by (nonlinear_arith);
                lemma_small_mod(0nat, crate::field::FIELD_ORDER as nat);
                lemma_small_mod(x as nat, crate::field::FIELD_ORDER as nat);
                assert(crate::constraints::select_m(b0, x, y) == x);
            } else {
                crate::constraints::lemma_sub_m_range(y, x);
                let d = crate::field::sub_m(y, x);
                assert(1 * d == d) by (nonlinear_arith);
                lemma_small_mod(d as nat, crate::field::FIELD_ORDER as nat);
                assert(crate::field::mul_m(b0, d) == d);
                crate::constraints::lemma_add_m_left(y - x, x);
                lemma_small_mod(y as nat, crate::field::FIELD_ORDER as nat);
                assert(crate::field::add_m(x, d) == crate::field::add_m(d, x));
                assert(crate::constraints::select_m(b0, x, y) == y);
            }
        }
        assert(all_canonical(items2));
        assert(items2.len() == pow2((n - 1) as nat));
        lemma_bits_shift(a, n);
        lemma_fold_of_bits(items2, a / 2, n - 1);
        assert(bs.skip(1) == bits_of(a / 2, n - 1));
        assert(items2[a / 2] == items[2 * (a / 2) + b0]);
        assert(2 * (a / 2) + b0 == a);
    }
}


impl RandomAccessGate {
    /// A witness consistent with the forward computation satisfies every
    /// constraint of its copy: when the access index is in range, the bit
    /// wires hold its little-endian bits, and the claimed element equals the
    /// selected list entry, all of the copy's constraints vanish.
    pub proof fn lemma_consistent_copy_vanishes(self, wires: Seq<int>, copy: int, a: int)
        requires
            self.wf(),
            0 <= copy < self.num_copies,
            wires.len() >= self.spec_num_wires(),
            all_canonical(wires),
            0 <= a < self.spec_vec_size(),
            wires[self.spec_wire_access_index(copy)] == a,
            forall|i: int|
                0 <= i < self.bits ==> wires[#[trigger] self.spec_wire_bit(i, copy)] == bit_of(
                    a,
                    i,
                ),
            wires[self.spec_wire_claimed_element(copy)] == wires[self.spec_wire_list_item(
                a,
                copy,
            )],
        ensures
            forall|k: int|
                0 <= k < self.bits + 2 ==> #[trigger] self.constraint_m(
                    wires,
                    copy * (self.bits + 2) + k,
                ) == 0,
    {
        self.lemma_wf_bounds();
        self.lemma_wire_index_bounds(copy);
        let bbits = self.b_wires_bits(wires, copy);
        let bitems = self.b_wires_items(wires, copy);
        assert(bbits =~= bits_of(a, self.bits as int));
        assert(all_canonical(bitems)) by {
            assert forall|i: int|
                0 <= i < bitems.len() implies 0 <= #[trigger] bitems[i] < FIELD_ORDER as int by {
                assert(bitems[i] == wires[self.spec_wire_list_item(i, copy)]);
            }
        }
        lemma_recon_of_bits(a, self.bits as int);
        lemma_fold_of_bits(bitems, a, self.bits as int);
        lemma_small_mod(0nat, FIELD_ORDER as nat);
        assert forall|k: int|
            0 <= k < self.bits + 2 implies #[trigger] self.constraint_m(
            wires,
            copy * (self.bits + 2) + k,
        ) == 0 by {
            self.lemma_constraint_slot(copy, k);
            if k < self.bits {
                let b = bbits[k];
                assert(b == bit_of(a, k));
                lemma_bit_of_bool(a, k);
                if b == 0 {
                    assert(0int * sub_m(0, 1) == 0) by (nonlinear_arith);
                } else {
                    lemma_small_mod(0nat, FIELD_ORDER as nat);
                    assert(sub_m(1, 1) == 0);
                    assert(1int * 0int == 0) by (nonlinear_arith);
                }
            } else if k == self.bits {
                assert(recon_m(bbits) == a);
            } else {
                assert(fold_all_m(bitems, bbits)[0] == bitems[a]);
                assert(bitems[a] == wires[self.spec_wire_list_item(a, copy)]);
            }
        }
    }

    /// A wrong claimed element is detected: the fold constraint of the copy
    /// equals the difference between the selected list entry and the claimed
    /// element, and is nonzero whenever the two differ.
    pub proof fn lemma_wrong_claimed_detected(self, wires: Seq<int>, copy: int, a: int)
        requires
            self.wf(),
            0 <= copy < self.num_copies,
            wires.len() >= self.spec_num_wires(),
            all_canonical(wires),
            0 <= a < self.spec_vec_size(),
            wires[self.spec_wire_access_index(copy)] == a,
            forall|i: int|
                0 <= i < self.bits ==> wires[#[trigger] self.spec_wire_bit(i, copy)] == bit_of(
                    a,
                    i,
                ),
        ensures
            self.constraint_m(wires, copy * (self.bits + 2) + self.bits + 1) == sub_m(
                wires[self.spec_wire_list_item(a, copy)],
                wires[self.spec_wire_claimed_element(copy)],
            ),
            wires[self.spec_wire_claimed_element(copy)] != wires[self.spec_wire_list_item(
                a,
                copy,
            )] ==> self.constraint_m(wires, copy * (self.bits + 2) + self.bits + 1) != 0,
    {
        self.lemma_wf_bounds();
        self.lemma_wire_index_bounds(copy);
        let bbits = self.b_wires_bits(wires, copy);
        let bitems = self.b_wires_items(wires, copy);
        assert(bbits =~= bits_of(a, self.bits as int));
        assert(all_canonical(bitems)) by {
            assert forall|i: int|
                0 <= i < bitems.len() implies 0 <= #[trigger] bitems[i] < FIELD_ORDER as int by {
                assert(bitems[i] == wires[self.spec_wire_list_item(i, copy)]);
            }
        }
        lemma_fold_of_bits(bitems, a, self.bits as int);
        self.lemma_constraint_slot(copy, self.bits as int + 1);
        assert(bitems[a] == wires[self.spec_wire_list_item(a, copy)]);
        if wires[self.spec_wire_claimed_element(copy)] != wires[self.spec_wire_list_item(
            a,
            copy,
        )] {
            crate::constraints::lemma_sub_m_nonzero(
                wires[self.spec_wire_list_item(a, copy)],
                wires[self.spec_wire_claimed_element(copy)],
            );
        }
    }
}

/// The generator of one copy of a random-access gate: once the access index
/// and the list are assigned, it checks the index against the list size,
/// sets the claimed element to the selected list entry, and sets the bit
/// wires to the index's binary decomposition.
#[derive(Clone, Copy, Debug)]
pub struct RandomAccessGenerator {
    pub gate_index: usize,
    pub gate: RandomAccessGate,
    pub copy: usize,
}

impl RandomAccessGenerator {
    /// Dependency `0` is the access index; dependency `1 + i` is list item
    /// `i`.
    pub open spec fn dep_at(self, i: int) -> Target {
        if i == 0 {
            Target::Wire(
                Wire {
                    gate: self.gate_index,
                    input: self.gate.spec_wire_access_index(self.copy as int) as usize,
                },
            )
        } else {
            Target::Wire(
                Wire {
                    gate: self.gate_index,
                    input: self.gate.spec_wire_list_item(i - 1, self.copy as int) as usize,
                },
            )
        }
    }

    pub open spec fn claimed_target(self) -> Target {
        Target::Wire(
            Wire {
                gate: self.gate_index,
                input: self.gate.spec_wire_claimed_element(self.copy as int) as usize,
            },
        )
    }

    pub open spec fn bit_target(self, i: int) -> Target {
        Target::Wire(
            Wire {
                gate: self.gate_index,
                input: self.gate.spec_wire_bit(i, self.copy as int) as usize,
            },
        )
    }

    /// The access index read from the witness.
    pub open spec fn access_value(self, witness: PartitionWitness) -> int {
        witness.value_of(self.dep_at(0)).unwrap()@
    }

    /// Whether this generator is consistently placed within its gate.
    pub open spec fn placed(self) -> bool {
        self.gate.wf() && (self.copy as int) < self.gate.num_copies
    }

    /// All wire indices this generator names lie below the wire count of its
    /// gate and are unchanged by the cast to `usize`.
    proof fn lemma_targets(self)
        requires
            self.placed(),
        ensures
            forall|i: int|
                0 <= i < 1 + self.gate.spec_vec_size() ==> {
                    let t = #[trigger] self.dep_at(i);
                    t is Wire && t->Wire_0.gate == self.gate_index && 0 <= t->Wire_0.input
                        < self.gate.spec_num_wires() && (i == 0 ==> t->Wire_0.input as int
                        == self.gate.spec_wire_access_index(self.copy as int)) && (i > 0
                        ==> t->Wire_0.input as int == self.gate.spec_wire_list_item(
                        i - 1,
                        self.copy as int,
                    ))
                },
            self.claimed_target() is Wire,
            self.claimed_target()->Wire_0.gate == self.gate_index,
            self.claimed_target()->Wire_0.input as int == self.gate.spec_wire_claimed_element(
                self.copy as int,
            ),
            (self.claimed_target()->Wire_0.input as int) < self.gate.spec_num_wires(),
            forall|i: int|
                0 <= i < self.gate.bits ==> {
                    let t = #[trigger] self.bit_target(i);
                    t is Wire && t->Wire_0.gate == self.gate_index && t->Wire_0.input as int
                        == self.gate.spec_wire_bit(i, self.copy as int) && (t->Wire_0.input as int)
                        < self.gate.spec_num_wires()
                },
    {
        self.gate.lemma_wf_bounds();
        self.gate.lemma_copy_block(self.copy as int);
        self.gate.lemma_bit_block(self.copy as int);
        assert forall|i: int| 0 <= i < 1 + self.gate.spec_vec_size() implies {
            let t = #[trigger] self.dep_at(i);
            t is Wire && t->Wire_0.gate == self.gate_index && 0 <= t->Wire_0.input
                < self.gate.spec_num_wires() && (i == 0 ==> t->Wire_0.input as int
                == self.gate.spec_wire_access_index(self.copy as int)) && (i > 0
                ==> t->Wire_0.input as int == self.gate.spec_wire_list_item(
                i - 1,
                self.copy as int,
            ))
        } by {
            if i == 0 {
            } else {
                assert(0 <= self.gate.spec_wire_list_item(i - 1, self.copy as int)
                    < self.gate.spec_num_wires());
            }
        }
        assert forall|i: int| 0 <= i < self.gate.bits implies {
            let t = #[trigger] self.bit_target(i);
            t is Wire && t->Wire_0.gate == self.gate_index && t->Wire_0.input as int
                == self.gate.spec_wire_bit(i, self.copy as int) && (t->Wire_0.input as int)
                < self.gate.spec_num_wires()
        } by {
            assert(0 <= self.gate.spec_wire_bit(i, self.copy as int)
                < self.gate.spec_num_wires());
        }
    }
}

impl SimpleGenerator for RandomAccessGenerator {
    open spec fn spec_dependencies(&self) -> Seq<Target> {
        if self.placed() {
            Seq::new((1 + self.gate.spec_vec_size()) as nat, |i: int| self.dep_at(i))
        } else {
            Seq::empty()
        }
    }

    open spec fn spec_outputs(&self) -> Seq<Target> {
        Seq::new(
            (1 + self.gate.bits) as nat,
            |i: int| if i == 0 {
                self.claimed_target()
            } else {
                self.bit_target(i - 1)
            },
        )
    }

    open spec fn spec_fails(&self, witness: PartitionWitness) -> bool {
        self.access_value(witness) >= self.gate.spec_vec_size()
    }

    open spec fn spec_error(&self) -> CircuitError {
        CircuitError::AccessIndexOutOfRange
    }

    open spec fn deposits(
        &self,
        witness: PartitionWitness,
        appended: Seq<(Target, FieldElement)>,
    ) -> bool {
        let a = self.access_value(witness);
        &&& appended.len() == 1 + self.gate.bits
        &&& appended[0].0 == self.claimed_target()
        &&& Some(appended[0].1) == witness.value_of(self.dep_at(1 + a))
        &&& forall|i: int|
            0 <= i < self.gate.bits ==> (#[trigger] appended[1 + i]).0 == self.bit_target(i)
                && appended[1 + i].1@ == bit_of(a, i)
    }

    proof fn lemma_deposit_targets(
        &self,
        witness: PartitionWitness,
        appended: Seq<(Target, FieldElement)>,
    ) {
        assert forall|k: int|
            0 <= k < appended.len() implies self.spec_outputs().contains(
            (#[trigger] appended[k]).0,
        ) by {
            if k == 0 {
                assert(self.spec_outputs()[0] == appended[0].0);
            } else {
                assert(appended[1 + (k - 1)].0 == self.bit_target(k - 1));
                assert(self.spec_outputs()[k] == appended[k].0);
            }
        }
        assert forall|j: int|
            0 <= j < self.spec_outputs().len() implies exists|k: int|
                0 <= k < appended.len() && appended[k].0 == (
                #[trigger] self.spec_outputs()[j]) by {
            if j == 0 {
                assert(appended[0].0 == self.spec_outputs()[0]);
            } else {
                assert(appended[1 + (j - 1)].0 == self.bit_target(j - 1));
                assert(appended[j].0 == self.spec_outputs()[j]);
            }
        }
    }

    proof fn lemma_outputs_valid(&self, num_wires: int, degree: int, num_virtual_targets: int) {
        self.lemma_targets();
        assert forall|k: int|
            0 <= k < self.spec_outputs().len() implies (#[trigger] self.spec_outputs()[k])
            .is_valid(num_wires, degree, num_virtual_targets) by {
            if k == 0 {
            } else {
                assert(self.spec_outputs()[k] == self.bit_target(k - 1));
            }
        }
    }

    open spec fn valid_wires(&self, num_wires: int, degree: int, num_virtual_targets: int) -> bool {
        &&& self.placed()
        &&& (self.gate_index as int) < degree
        &&& self.gate.spec_num_wires() <= num_wires
    }

    proof fn lemma_dependencies_valid(
        &self,
        num_wires: int,
        degree: int,
        num_virtual_targets: int,
    ) {
        self.lemma_targets();
    }

    fn dependencies(&self) -> (v: Vec<Target>) {
        let mut v: Vec<Target> = Vec::new();
        if !(self.gate.is_well_formed() && self.copy < self.gate.num_copies) {
            proof {
                assert(v@ =~= self.spec_dependencies());
            }
            return v;
        }
        proof {
            self.lemma_targets();
        }
        v.push(Target::wire(self.gate_index, self.gate.wire_access_index(self.copy)));
        let vs = self.gate.vec_size();
        for i in 0..vs
            invariant
                self.placed(),
                vs as int == self.gate.spec_vec_size(),
                v@.len() == 1 + i,
                v@[0] == self.dep_at(0),
                forall|k: int| 1 <= k < 1 + i ==> #[trigger] v@[k] == self.dep_at(k),
        {
            proof {
                self.lemma_targets();
            }
            v.push(Target::wire(self.gate_index, self.gate.wire_list_item(i, self.copy)));
        }
        proof {
            assert(v@ =~= self.spec_dependencies());
        }
        v
    }

    fn run_once(&self, witness: &PartitionWitness, out_buffer: &mut GeneratedValues) -> (r: Result<
        (),
        CircuitError,
    >)
        ensures
            r is Ok <==> self.access_value(*witness) < self.gate.spec_vec_size(),
            r is Err ==> r == Result::<(), CircuitError>::Err(CircuitError::AccessIndexOutOfRange)
                && final(out_buffer).target_values@ == old(out_buffer).target_values@,
            r is Ok ==> ({
                let a = self.access_value(*witness);
                let pre = old(out_buffer).target_values@;
                let post = final(out_buffer).target_values@;
                &&& post.len() == pre.len() + 1 + self.gate.bits
                &&& post[pre.len() as int].0 == self.claimed_target()
                &&& Some(post[pre.len() as int].1) == witness.value_of(self.dep_at(1 + a))
                &&& forall|i: int|
                    0 <= i < self.gate.bits ==> (#[trigger] post[pre.len() + 1 + i]).0
                        == self.bit_target(i) && post[pre.len() + 1 + i].1@ == bit_of(a, i)
            }),
    {
        proof {
            self.lemma_targets();
            assert(self.spec_dependencies()[0] == self.dep_at(0));
        }
        let vec_size = self.gate.vec_size();
        let access_wire = Wire {
            gate: self.gate_index,
            input: self.gate.wire_access_index(self.copy),
        };
        proof {
            assert(Target::Wire(access_wire) == self.dep_at(0));
        }
        let access_index_f = witness.get_wire(access_wire);
        let access_index_u64 = access_index_f.to_canonical_u64();
        if access_index_u64 >= vec_size as u64 {
            proof {
                assert(out_buffer.target_values@.subrange(
                    0,
                    out_buffer.target_values@.len() as int,
                ) =~= out_buffer.target_values@);
            }
            return Err(CircuitError::AccessIndexOutOfRange);
        }
        let access_index = access_index_u64 as usize;
        let item_wire = Wire {
            gate: self.gate_index,
            input: self.gate.wire_list_item(access_index, self.copy),
        };
        proof {
            assert(self.spec_dependencies()[1 + access_index as int] == self.dep_at(
                1 + access_index as int,
            ));
            assert(Target::Wire(item_wire) == self.dep_at(1 + access_index as int));
        }
        let item_value = witness.get_wire(item_wire);
        let claimed_wire = Wire {
            gate: self.gate_index,
            input: self.gate.wire_claimed_element(self.copy),
        };
        out_buffer.set_wire(claimed_wire, item_value);
        proof {
            assert(out_buffer.target_values@.subrange(
                0,
                old(out_buffer).target_values@.len() as int,
            ) =~= old(out_buffer).target_values@);
        }
        let bits = self.gate.bits;
        for i in 0..bits
            invariant
                self.placed(),
                witness.wf(),
                self.valid_wires(
                    witness.num_wires as int,
                    witness.degree as int,
                    witness.num_virtual_targets as int,
                ),
                bits == self.gate.bits,
                access_index_u64 as int == self.access_value(*witness),
                access_index == access_index_u64,
                out_buffer.target_values@.len() == old(out_buffer).target_values@.len() + 1 + i,
                out_buffer.target_values@.subrange(0, old(out_buffer).target_values@.len() as int)
                    == old(out_buffer).target_values@,
                out_buffer.target_values@[old(out_buffer).target_values@.len() as int].0
                    == self.claimed_target(),
                Some(out_buffer.target_values@[old(out_buffer).target_values@.len() as int].1)
                    == witness.value_of(self.dep_at(1 + access_index_u64 as int)),
                forall|k: int|
                    0 <= k < i ==> (#[trigger] out_buffer.target_values@[old(
                        out_buffer,
                    ).target_values@.len() + 1 + k]).0 == self.bit_target(k)
                        && out_buffer.target_values@[old(out_buffer).target_values@.len() + 1
                        + k].1@ == bit_of(access_index_u64 as int, k),
        {
            let bit_set = ((access_index_u64 >> (i as u64)) & 1) != 0;
            let bit_wire = Wire { gate: self.gate_index, input: self.gate.wire_bit(i, self.copy) };
            out_buffer.set_wire(bit_wire, FieldElement::from_bool(bit_set));
            proof {
                self.lemma_targets();
                vstd::bits::lemma_u64_shr_is_div(access_index_u64, i as u64);
                let sh = access_index_u64 >> (i as u64);
                assert((sh & 1) == sh % 2) by (bit_vector);
                assert(out_buffer.target_values@.subrange(
                    0,
                    old(out_buffer).target_values@.len() as int,
                ) =~= old(out_buffer).target_values@);
            }
        }
        proof {
            self.lemma_targets();
            let basel = old(out_buffer).target_values@.len() as int;
            assert forall|k: int|
                basel <= k < out_buffer.target_values@.len() implies witness.target_valid(
                (#[trigger] out_buffer.target_values@[k]).0,
            ) by {
                if k == basel {
                } else {
                    let j = k - basel - 1;
                    assert(out_buffer.target_values@[basel + 1 + j].0 == self.bit_target(j));
                    assert(basel + 1 + j == k);
                }
            }
            let appended = out_buffer.target_values@.subrange(
                basel,
                out_buffer.target_values@.len() as int,
            );
            assert(appended.len() == 1 + self.gate.bits);
            assert(appended[0] == out_buffer.target_values@[basel]);
            assert forall|i: int|
                0 <= i < self.gate.bits implies (#[trigger] appended[1 + i]).0 == self.bit_target(
                i,
            ) && appended[1 + i].1@ == bit_of(access_index_u64 as int, i) by {
                assert(appended[1 + i] == out_buffer.target_values@[basel + 1 + i]);
            }
            assert(self.deposits(*witness, appended));
        }
        Ok(())
    }
}


/// One evaluation point of the in-circuit mode: the recorder nodes that hold
/// the row's wire values.
#[derive(Clone, Debug)]
pub struct EvaluationTargets {
    pub local_wires: Vec<usize>,
}

/// The wire values a recording reads: the value of each named node under an
/// assignment of the recording's inputs.
pub open spec fn recorded_wire_values(
    nodes: Seq<ExtNode>,
    wires: Seq<usize>,
    env: Seq<(int, int)>,
) -> Seq<(int, int)> {
    Seq::new(wires.len(), |w: int| node_value(nodes, env, wires[w] as int))
}

impl RandomAccessGate {
    /// Records, in the recorder, a sub-computation that derives the
    /// constraint values from the given wire nodes, and returns the nodes
    /// holding them. Under every assignment of the recording's inputs, the
    /// recorded nodes carry exactly the extension-field constraint values of
    /// the wire values; and every constraint node has symbolic degree at
    /// most the declared gate degree, the wires counting as degree one.
    #[verifier::rlimit(100)]
    pub fn eval_unfiltered_recursively(
        &self,
        builder: &mut CircuitRecorder,
        vars: &EvaluationTargets,
    ) -> (r: Vec<usize>)
        requires
            self.wf(),
            old(builder).wf(),
            vars.local_wires@.len() >= self.spec_num_wires(),
            forall|w: int|
                0 <= w < vars.local_wires@.len() ==> ((#[trigger] vars.local_wires@[w]) as int)
                    < old(builder).nodes@.len() && node_degree(
                    old(builder).nodes@,
                    vars.local_wires@[w] as int,
                ) <= 1,
        ensures
            final(builder).wf(),
            final(builder).num_inputs == old(builder).num_inputs,
            old(builder).nodes@.len() <= final(builder).nodes@.len(),
            final(builder).nodes@.subrange(0, old(builder).nodes@.len() as int) == old(
                builder,
            ).nodes@,
            r@.len() == self.spec_num_constraints(),
            forall|j: int|
                0 <= j < r@.len() ==> ((#[trigger] r@[j]) as int) < final(builder).nodes@.len()
                    && node_degree(final(builder).nodes@, r@[j] as int) <= self.spec_degree(),
            forall|env: Seq<(int, int)>, j: int|
                0 <= j < r@.len() ==> #[trigger] node_value(
                    final(builder).nodes@,
                    env,
                    r@[j] as int,
                ) == self.e_constraint(
                    recorded_wire_values(old(builder).nodes@, vars.local_wires@, env),
                    j,
                ),
    {
        proof {
            self.lemma_wf_bounds();
            assert(0int * (self.bits as int + 2) == 0) by (nonlinear_arith);
        }
        let zero = builder.zero_extension();
        let ghost nodes1 = builder.nodes@;
        let two = builder.two_extension();
        proof {
            lemma_node_degree_prefix(nodes1, builder.nodes@, zero as int);
            assert(builder.nodes@.subrange(0, old(builder).nodes@.len() as int) =~= old(
                builder,
            ).nodes@);
            lemma_degrees_le_preserved(old(builder).nodes@, builder.nodes@, vars.local_wires@, 1);
            lemma_values_preserved(old(builder).nodes@, builder.nodes@, vars.local_wires@);
            assert forall|env: Seq<(int, int)>| #[trigger] node_value(
                builder.nodes@,
                env,
                zero as int,
            ) == (0int, 0int) by {
                lemma_node_value_prefix(nodes1, builder.nodes@, env, zero as int);
            }
        }
        let num_copies = self.num_copies;
        let bits = self.bits;
        let vs = self.vec_size();
        let mut constraints: Vec<usize> = Vec::new();
        for copy in 0..num_copies
            invariant
                self.wf(),
                num_copies == self.num_copies,
                bits == self.bits,
                vs as int == self.spec_vec_size(),
                vars.local_wires@.len() >= self.spec_num_wires(),
                builder.wf(),
                builder.num_inputs == old(builder).num_inputs,
                old(builder).nodes@.len() <= builder.nodes@.len(),
                builder.nodes@.subrange(0, old(builder).nodes@.len() as int) == old(
                    builder,
                ).nodes@,
                zero < builder.nodes@.len() && node_degree(builder.nodes@, zero as int) == 0,
                two < builder.nodes@.len() && node_degree(builder.nodes@, two as int) == 0,
                forall|env: Seq<(int, int)>| #[trigger] node_value(
                    builder.nodes@,
                    env,
                    zero as int,
                ) == (0int, 0int),
                forall|env: Seq<(int, int)>| #[trigger] node_value(builder.nodes@, env, two as int)
                    == (2int, 0int),
                forall|w: int|
                    0 <= w < vars.local_wires@.len() ==> ((#[trigger] vars.local_wires@[w]) as int)
                        < builder.nodes@.len() && node_degree(
                        builder.nodes@,
                        vars.local_wires@[w] as int,
                    ) <= 1,
                forall|env: Seq<(int, int)>, w: int|
                    0 <= w < vars.local_wires@.len() ==> #[trigger] node_value(
                        builder.nodes@,
                        env,
                        vars.local_wires@[w] as int,
                    ) == recorded_wire_values(old(builder).nodes@, vars.local_wires@, env)[w],
                constraints@.len() == copy * (bits + 2),
                forall|j: int|
                    0 <= j < constraints@.len() ==> ((#[trigger] constraints@[j]) as int)
                        < builder.nodes@.len() && node_degree(
                        builder.nodes@,
                        constraints@[j] as int,
                    ) <= self.spec_degree(),
                forall|env: Seq<(int, int)>, j: int|
                    0 <= j < constraints@.len() ==> #[trigger] node_value(
                        builder.nodes@,
                        env,
                        constraints@[j] as int,
                    ) == self.e_constraint(
                        recorded_wire_values(old(builder).nodes@, vars.local_wires@, env),
                        j,
                    ),
        {
            proof {
                self.lemma_wf_bounds();
                assert((copy + 1) * (bits + 2) == copy * (bits + 2) + (bits + 2))
                    by (nonlinear_arith);
            }
            let access_index = vars.local_wires[self.wire_access_index(copy)];
            let claimed_element = vars.local_wires[self.wire_claimed_element(copy)];

            // Each bit wire value is boolean: `b * b - b` must vanish.
            for i in 0..bits
                invariant
                    self.wf(),
                    bits == self.bits,
                    copy < self.num_copies,
                    vars.local_wires@.len() >= self.spec_num_wires(),
                    builder.wf(),
                    builder.num_inputs == old(builder).num_inputs,
                    old(builder).nodes@.len() <= builder.nodes@.len(),
                    builder.nodes@.subrange(0, old(builder).nodes@.len() as int) == old(
                        builder,
                    ).nodes@,
                    zero < builder.nodes@.len() && node_degree(builder.nodes@, zero as int) == 0,
                    two < builder.nodes@.len() && node_degree(builder.nodes@, two as int) == 0,
                    forall|env: Seq<(int, int)>| #[trigger] node_value(
                        builder.nodes@,
                        env,
                        zero as int,
                    ) == (0int, 0int),
                    forall|env: Seq<(int, int)>| #[trigger] node_value(
                        builder.nodes@,
                        env,
                        two as int,
                    ) == (2int, 0int),
                    forall|w: int|
                        0 <= w < vars.local_wires@.len() ==> ((
                        #[trigger] vars.local_wires@[w]) as int) < builder.nodes@.len()
                            && node_degree(builder.nodes@, vars.local_wires@[w] as int) <= 1,
                    forall|env: Seq<(int, int)>, w: int|
                        0 <= w < vars.local_wires@.len() ==> #[trigger] node_value(
                            builder.nodes@,
                            env,
                            vars.local_wires@[w] as int,
                        ) == recorded_wire_values(old(builder).nodes@, vars.local_wires@, env)[w],
                    constraints@.len() == copy * (bits + 2) + i,
                    forall|j: int|
                        0 <= j < constraints@.len() ==> ((#[trigger] constraints@[j]) as int)
                            < builder.nodes@.len() && node_degree(
                            builder.nodes@,
                            constraints@[j] as int,
                        ) <= self.spec_degree(),
                    forall|env: Seq<(int, int)>, j: int|
                        0 <= j < constraints@.len() ==> #[trigger] node_value(
                            builder.nodes@,
                            env,
                            constraints@[j] as int,
                        ) == self.e_constraint(
                            recorded_wire_values(old(builder).nodes@, vars.local_wires@, env),
                            j,
                        ),
            {
                let bit_idx = self.wire_bit(i, copy);
                let b = vars.local_wires[bit_idx];
                let ghost pre = builder.nodes@;
                let c = builder.mul_sub_extension(b, b, b);
                let ghost pre_c = constraints@;
                constraints.push(c);
                proof {
                    self.lemma_constraint_slot(copy as int, i as int);
                    self.lemma_wf_bounds();
                    lemma_mul_inequality(copy as int + 1, self.num_copies as int, bits as int + 2);
                    assert((copy + 1) * (bits + 2) == copy * (bits + 2) + (bits + 2))
                        by (nonlinear_arith);
                    lemma_prefix_trans(old(builder).nodes@, pre, builder.nodes@);
                    lemma_degrees_le_preserved(pre, builder.nodes@, vars.local_wires@, 1);
                    lemma_degrees_le_preserved(pre, builder.nodes@, pre_c, self.spec_degree());
                    lemma_node_degree_prefix(pre, builder.nodes@, zero as int);
                    lemma_node_degree_prefix(pre, builder.nodes@, two as int);
                    lemma_node_degree_prefix(pre, builder.nodes@, b as int);
                    lemma_values_preserved(pre, builder.nodes@, vars.local_wires@);
                    lemma_values_preserved(pre, builder.nodes@, pre_c);
                    assert forall|env: Seq<(int, int)>| #[trigger] node_value(
                        builder.nodes@,
                        env,
                        zero as int,
                    ) == (0int, 0int) by {
                        lemma_node_value_prefix(pre, builder.nodes@, env, zero as int);
                    }
                    assert forall|env: Seq<(int, int)>| #[trigger] node_value(
                        builder.nodes@,
                        env,
                        two as int,
                    ) == (2int, 0int) by {
                        lemma_node_value_prefix(pre, builder.nodes@, env, two as int);
                    }
                    assert(constraints@.drop_last() =~= pre_c);
                    assert forall|j: int|
                        0 <= j < constraints@.len() implies ((#[trigger] constraints@[j]) as int)
                        < builder.nodes@.len() && node_degree(
                        builder.nodes@,
                        constraints@[j] as int,
                    ) <= self.spec_degree() by {
                        if j < constraints@.len() - 1 {
                            assert(constraints@[j] == pre_c[j]);
                        }
                    }
                    assert forall|env: Seq<(int, int)>, j: int|
                        0 <= j < constraints@.len() implies #[trigger] node_value(
                        builder.nodes@,
                        env,
                        constraints@[j] as int,
                    ) == self.e_constraint(
                        recorded_wire_values(old(builder).nodes@, vars.local_wires@, env),
                        j,
                    ) by {
                        let w0 = recorded_wire_values(old(builder).nodes@, vars.local_wires@, env);
                        self.lemma_wire_index_bounds(copy as int);
                        if j < constraints@.len() - 1 {
                            assert(constraints@[j] == pre_c[j]);
                        } else {
                            let vb = node_value(builder.nodes@, env, b as int);
                            assert(b == vars.local_wires@[self.spec_wire_bit(
                                i as int,
                                copy as int,
                            )]);
                            assert(node_value(
                                builder.nodes@,
                                env,
                                vars.local_wires@[self.spec_wire_bit(
                                    i as int,
                                    copy as int,
                                )] as int,
                            ) == w0[self.spec_wire_bit(i as int, copy as int)]);
                            assert(vb == w0[self.spec_wire_bit(i as int, copy as int)]);
                            assert(self.e_wires_bits(w0, copy as int)[i as int] == w0[
                                self.spec_wire_bit(i as int, copy as int)]);
                            lemma_bool_check_shape(vb);
                        }
                    }
                }
            }

            // The binary decomposition reconstructs the access index.
            let mut acc = zero;
            let mut i = bits;
            while i > 0
                invariant
                    self.wf(),
                    bits == self.bits,
                    copy < self.num_copies,
                    i <= bits,
                    vars.local_wires@.len() >= self.spec_num_wires(),
                    builder.wf(),
                    builder.num_inputs == old(builder).num_inputs,
                    old(builder).nodes@.len() <= builder.nodes@.len(),
                    builder.nodes@.subrange(0, old(builder).nodes@.len() as int) == old(
                        builder,
                    ).nodes@,
                    zero < builder.nodes@.len() && node_degree(builder.nodes@, zero as int) == 0,
                    two < builder.nodes@.len() && node_degree(builder.nodes@, two as int) == 0,
                    forall|env: Seq<(int, int)>| #[trigger] node_value(
                        builder.nodes@,
                        env,
                        zero as int,
                    ) == (0int, 0int),
                    forall|env: Seq<(int, int)>| #[trigger] node_value(
                        builder.nodes@,
                        env,
                        two as int,
                    ) == (2int, 0int),
                    acc < builder.nodes@.len() && node_degree(builder.nodes@, acc as int) <= 1,
                    forall|env: Seq<(int, int)>| #[trigger] node_value(
                        builder.nodes@,
                        env,
                        acc as int,
                    ) == e_recon(
                        self.e_wires_bits(
                            recorded_wire_values(old(builder).nodes@, vars.local_wires@, env),
                            copy as int,
                        ).skip(i as int),
                    ),
                    forall|w: int|
                        0 <= w < vars.local_wires@.len() ==> ((
                        #[trigger] vars.local_wires@[w]) as int) < builder.nodes@.len()
                            && node_degree(builder.nodes@, vars.local_wires@[w] as int) <= 1,
                    forall|env: Seq<(int, int)>, w: int|
                        0 <= w < vars.local_wires@.len() ==> #[trigger] node_value(
                            builder.nodes@,
                            env,
                            vars.local_wires@[w] as int,
                        ) == recorded_wire_values(old(builder).nodes@, vars.local_wires@, env)[w],
                    constraints@.len() == copy * (bits + 2) + bits,
                    forall|j: int|
                        0 <= j < constraints@.len() ==> ((#[trigger] constraints@[j]) as int)
                            < builder.nodes@.len() && node_degree(
                            builder.nodes@,
                            constraints@[j] as int,
                        ) <= self.spec_degree(),
                    forall|env: Seq<(int, int)>, j: int|
                        0 <= j < constraints@.len() ==> #[trigger] node_value(
                            builder.nodes@,
                            env,
                            constraints@[j] as int,
                        ) == self.e_constraint(
                            recorded_wire_values(old(builder).nodes@, vars.local_wires@, env),
                            j,
                        ),
                decreases i,
            {
                i = i - 1;
                let bit_idx = self.wire_bit(i, copy);
                let b = vars.local_wires[bit_idx];
                let ghost pre = builder.nodes@;
                let ghost acc_old = acc;
                acc = builder.mul_add_extension(acc, two, b);
                proof {
                    lemma_prefix_trans(old(builder).nodes@, pre, builder.nodes@);
                    lemma_degrees_le_preserved(pre, builder.nodes@, vars.local_wires@, 1);
                    lemma_degrees_le_preserved(
                        pre,
                        builder.nodes@,
                        constraints@,
                        self.spec_degree(),
                    );
                    lemma_node_degree_prefix(pre, builder.nodes@, zero as int);
                    lemma_node_degree_prefix(pre, builder.nodes@, two as int);
                    lemma_node_degree_prefix(pre, builder.nodes@, acc_old as int);
                    lemma_node_degree_prefix(pre, builder.nodes@, b as int);
                    lemma_values_preserved(pre, builder.nodes@, vars.local_wires@);
                    lemma_values_preserved(pre, builder.nodes@, constraints@);
                    assert forall|env: Seq<(int, int)>| #[trigger] node_value(
                        builder.nodes@,
                        env,
                        zero as int,
                    ) == (0int, 0int) by {
                        lemma_node_value_prefix(pre, builder.nodes@, env, zero as int);
                    }
                    assert forall|env: Seq<(int, int)>| #[trigger] node_value(
                        builder.nodes@,
                        env,
                        two as int,
                    ) == (2int, 0int) by {
                        lemma_node_value_prefix(pre, builder.nodes@, env, two as int);
                    }
                    assert forall|env: Seq<(int, int)>| #[trigger] node_value(
                        builder.nodes@,
                        env,
                        acc as int,
                    ) == e_recon(
                        self.e_wires_bits(
                            recorded_wire_values(old(builder).nodes@, vars.local_wires@, env),
                            copy as int,
                        ).skip(i as int),
                    ) by {
                        let w0 = recorded_wire_values(old(builder).nodes@, vars.local_wires@, env);
                        self.lemma_wire_index_bounds(copy as int);
                        let bs = self.e_wires_bits(w0, copy as int);
                        lemma_node_value_prefix(pre, builder.nodes@, env, acc_old as int);
                        lemma_node_value_prefix(pre, builder.nodes@, env, two as int);
                        let va = node_value(pre, env, acc_old as int);
                        let vb = node_value(builder.nodes@, env, b as int);
                        assert(va == e_recon(bs.skip(i as int + 1)));
                        assert(b == vars.local_wires@[self.spec_wire_bit(i as int, copy as int)]);
                        assert(node_value(
                            builder.nodes@,
                            env,
                            vars.local_wires@[self.spec_wire_bit(i as int, copy as int)] as int,
                        ) == w0[self.spec_wire_bit(i as int, copy as int)]);
                        assert(vb == w0[self.spec_wire_bit(i as int, copy as int)]);
                        assert(bs[i as int] == w0[self.spec_wire_bit(i as int, copy as int)]);
                        lemma_double_shape(va);
                        assert(node_value(builder.nodes@, env, acc as int) == e_add(
                            e_mul(va, (2int, 0int)),
                            vb,
                        ));
                        assert(bs.skip(i as int).skip(1) =~= bs.skip(i as int + 1));
                        assert(bs.skip(i as int)[0] == bs[i as int]);
                    }
                }
            }
            let ghost pre_r = builder.nodes@;
            let c_recon = builder.sub_extension(acc, access_index);
            let ghost pre_c = constraints@;
            constraints.push(c_recon);
            proof {
                self.lemma_wf_bounds();
                self.lemma_constraint_slot(copy as int, bits as int);
                lemma_prefix_trans(old(builder).nodes@, pre_r, builder.nodes@);
                lemma_degrees_le_preserved(pre_r, builder.nodes@, vars.local_wires@, 1);
                lemma_degrees_le_preserved(pre_r, builder.nodes@, pre_c, self.spec_degree());
                lemma_node_degree_prefix(pre_r, builder.nodes@, zero as int);
                lemma_node_degree_prefix(pre_r, builder.nodes@, two as int);
                lemma_node_degree_prefix(pre_r, builder.nodes@, acc as int);
                lemma_values_preserved(pre_r, builder.nodes@, vars.local_wires@);
                lemma_values_preserved(pre_r, builder.nodes@, pre_c);
                assert forall|env: Seq<(int, int)>| #[trigger] node_value(
                    builder.nodes@,
                    env,
                    zero as int,
                ) == (0int, 0int) by {
                    lemma_node_value_prefix(pre_r, builder.nodes@, env, zero as int);
                }
                assert forall|env: Seq<(int, int)>| #[trigger] node_value(
                    builder.nodes@,
                    env,
                    two as int,
                ) == (2int, 0int) by {
                    lemma_node_value_prefix(pre_r, builder.nodes@, env, two as int);
                }
                assert(constraints@.drop_last() =~= pre_c);
                assert forall|j: int|
                    0 <= j < constraints@.len() implies ((#[trigger] constraints@[j]) as int)
                    < builder.nodes@.len() && node_degree(builder.nodes@, constraints@[j] as int)
                    <= self.spec_degree() by {
                    if j < constraints@.len() - 1 {
                        assert(constraints@[j] == pre_c[j]);
                    }
                }
                assert forall|env: Seq<(int, int)>, j: int|
                    0 <= j < constraints@.len() implies #[trigger] node_value(
                    builder.nodes@,
                    env,
                    constraints@[j] as int,
                ) == self.e_constraint(
                    recorded_wire_values(old(builder).nodes@, vars.local_wires@, env),
                    j,
                ) by {
                    let w0 = recorded_wire_values(old(builder).nodes@, vars.local_wires@, env);
                    self.lemma_wire_index_bounds(copy as int);
                    if j < constraints@.len() - 1 {
                        assert(constraints@[j] == pre_c[j]);
                    } else {
                        let bs = self.e_wires_bits(w0, copy as int);
                        lemma_node_value_prefix(pre_r, builder.nodes@, env, acc as int);
                        assert(node_value(pre_r, env, acc as int) == e_recon(bs.skip(0)));
                        assert(bs.skip(0) =~= bs);
                        assert(access_index == vars.local_wires@[self.spec_wire_access_index(
                            copy as int,
                        )]);
                        assert(node_value(
                            builder.nodes@,
                            env,
                            vars.local_wires@[self.spec_wire_access_index(copy as int)] as int,
                        ) == w0[self.spec_wire_access_index(copy as int)]);
                        assert(node_value(builder.nodes@, env, access_index as int) == w0[
                            self.spec_wire_access_index(copy as int)]);
                    }
                }
            }

            // Fold the list level by level, selecting by the bits.
            let mut cur: Vec<usize> = Vec::new();
            for t in 0..vs
                invariant
                    self.wf(),
                    vs as int == self.spec_vec_size(),
                    copy < self.num_copies,
                    vars.local_wires@.len() >= self.spec_num_wires(),
                    builder.wf(),
                    forall|w: int|
                        0 <= w < vars.local_wires@.len() ==> ((
                        #[trigger] vars.local_wires@[w]) as int) < builder.nodes@.len()
                            && node_degree(builder.nodes@, vars.local_wires@[w] as int) <= 1,
                    forall|env: Seq<(int, int)>, w: int|
                        0 <= w < vars.local_wires@.len() ==> #[trigger] node_value(
                            builder.nodes@,
                            env,
                            vars.local_wires@[w] as int,
                        ) == recorded_wire_values(old(builder).nodes@, vars.local_wires@, env)[w],
                    cur@.len() == t,
                    forall|k: int|
                        0 <= k < t ==> ((#[trigger] cur@[k]) as int) < builder.nodes@.len()
                            && node_degree(builder.nodes@, cur@[k] as int) <= 1,
                    forall|k: int|
                        0 <= k < t ==> #[trigger] cur@[k] == vars.local_wires@[
                        self.spec_wire_list_item(k, copy as int)],
            {
                cur.push(vars.local_wires[self.wire_list_item(t, copy)]);
            }
            proof {
                assert forall|env: Seq<(int, int)>, k: int|
                    0 <= k < cur@.len() implies #[trigger] node_value(
                    builder.nodes@,
                    env,
                    cur@[k] as int,
                ) == e_fold_all(
                    self.e_wires_items(
                        recorded_wire_values(old(builder).nodes@, vars.local_wires@, env),
                        copy as int,
                    ),
                    self.e_wires_bits(
                        recorded_wire_values(old(builder).nodes@, vars.local_wires@, env),
                        copy as int,
                    ).take(0),
                )[k] by {
                    let w0 = recorded_wire_values(old(builder).nodes@, vars.local_wires@, env);
                    self.lemma_wire_index_bounds(copy as int);
                    let items0 = self.e_wires_items(w0, copy as int);
                    let bs = self.e_wires_bits(w0, copy as int);
                    assert(bs.take(0) =~= Seq::<(int, int)>::empty());
                    assert(e_fold_all(items0, bs.take(0)) == items0);
                    assert(cur@[k] == vars.local_wires@[self.spec_wire_list_item(
                        k,
                        copy as int,
                    )]);
                    assert(node_value(
                        builder.nodes@,
                        env,
                        vars.local_wires@[self.spec_wire_list_item(k, copy as int)] as int,
                    ) == w0[self.spec_wire_list_item(k, copy as int)]);
                    assert(items0[k] == w0[self.spec_wire_list_item(k, copy as int)]);
                }
            }
            let mut lvl: usize = 0;
            let mut cur_width = vs;
            while lvl < bits
                invariant
                    self.wf(),
                    bits == self.bits,
                    vs as int == self.spec_vec_size(),
                    copy < self.num_copies,
                    lvl <= bits,
                    vars.local_wires@.len() >= self.spec_num_wires(),
                    builder.wf(),
                    builder.num_inputs == old(builder).num_inputs,
                    old(builder).nodes@.len() <= builder.nodes@.len(),
                    builder.nodes@.subrange(0, old(builder).nodes@.len() as int) == old(
                        builder,
                    ).nodes@,
                    zero < builder.nodes@.len() && node_degree(builder.nodes@, zero as int) == 0,
                    two < builder.nodes@.len() && node_degree(builder.nodes@, two as int) == 0,
                    forall|env: Seq<(int, int)>| #[trigger] node_value(
                        builder.nodes@,
                        env,
                        zero as int,
                    ) == (0int, 0int),
                    forall|env: Seq<(int, int)>| #[trigger] node_value(
                        builder.nodes@,
                        env,
                        two as int,
                    ) == (2int, 0int),
                    cur_width as nat == pow2((bits - lvl) as nat),
                    cur@.len() == cur_width,
                    cur_width >= 1,
                    forall|w: int|
                        0 <= w < vars.local_wires@.len() ==> ((
                        #[trigger] vars.local_wires@[w]) as int) < builder.nodes@.len()
                            && node_degree(builder.nodes@, vars.local_wires@[w] as int) <= 1,
                    forall|env: Seq<(int, int)>, w: int|
                        0 <= w < vars.local_wires@.len() ==> #[trigger] node_value(
                            builder.nodes@,
                            env,
                            vars.local_wires@[w] as int,
                        ) == recorded_wire_values(old(builder).nodes@, vars.local_wires@, env)[w],
                    forall|k: int|
                        0 <= k < cur@.len() ==> ((#[trigger] cur@[k]) as int)
                            < builder.nodes@.len() && node_degree(builder.nodes@, cur@[k] as int)
                            <= 1 + lvl,
                    forall|env: Seq<(int, int)>| #[trigger] e_fold_all(
                        self.e_wires_items(
                            recorded_wire_values(old(builder).nodes@, vars.local_wires@, env),
                            copy as int,
                        ),
                        self.e_wires_bits(
                            recorded_wire_values(old(builder).nodes@, vars.local_wires@, env),
                            copy as int,
                        ).take(lvl as int),
                    ).len() == cur_width,
                    forall|env: Seq<(int, int)>, k: int|
                        0 <= k < cur@.len() ==> #[trigger] node_value(
                            builder.nodes@,
                            env,
                            cur@[k] as int,
                        ) == e_fold_all(
                            self.e_wires_items(
                                recorded_wire_values(old(builder).nodes@, vars.local_wires@, env),
                                copy as int,
                            ),
                            self.e_wires_bits(
                                recorded_wire_values(old(builder).nodes@, vars.local_wires@, env),
                                copy as int,
                            ).take(lvl as int),
                        )[k],
                    constraints@.len() == copy * (bits + 2) + bits + 1,
                    forall|j: int|
                        0 <= j < constraints@.len() ==> ((#[trigger] constraints@[j]) as int)
                            < builder.nodes@.len() && node_degree(
                            builder.nodes@,
                            constraints@[j] as int,
                        ) <= self.spec_degree(),
                    forall|env: Seq<(int, int)>, j: int|
                        0 <= j < constraints@.len() ==> #[trigger] node_value(
                            builder.nodes@,
                            env,
                            constraints@[j] as int,
                        ) == self.e_constraint(
                            recorded_wire_values(old(builder).nodes@, vars.local_wires@, env),
                            j,
                        ),
                decreases bits - lvl,
            {
                let bit_idx = self.wire_bit(lvl, copy);
                let b = vars.local_wires[bit_idx];
                let half = cur_width / 2;
                proof {
                    lemma_pow2_adds((bits - lvl - 1) as nat, 1);
                    lemma2_to64();
                    lemma_pow2_pos((bits - lvl - 1) as nat);
                }
                let mut next: Vec<usize> = Vec::new();
                let mut p: usize = 0;
                while p < half
                    invariant
                        self.wf(),
                        bits == self.bits,
                        lvl < bits,
                        copy < self.num_copies,
                        p <= half,
                        vars.local_wires@.len() >= self.spec_num_wires(),
                        builder.wf(),
                        builder.num_inputs == old(builder).num_inputs,
                        old(builder).nodes@.len() <= builder.nodes@.len(),
                        builder.nodes@.subrange(0, old(builder).nodes@.len() as int) == old(
                            builder,
                        ).nodes@,
                        zero < builder.nodes@.len() && node_degree(builder.nodes@, zero as int)
                            == 0,
                        two < builder.nodes@.len() && node_degree(builder.nodes@, two as int)
                            == 0,
                        forall|env: Seq<(int, int)>| #[trigger] node_value(
                            builder.nodes@,
                            env,
                            zero as int,
                        ) == (0int, 0int),
                        forall|env: Seq<(int, int)>| #[trigger] node_value(
                            builder.nodes@,
                            env,
                            two as int,
                        ) == (2int, 0int),
                        b < builder.nodes@.len() && node_degree(builder.nodes@, b as int) <= 1,
                        b == vars.local_wires@[self.spec_wire_bit(lvl as int, copy as int)],
                        half == cur_width / 2,
                        2 * half == cur_width,
                        cur@.len() == cur_width,
                        forall|w: int|
                            0 <= w < vars.local_wires@.len() ==> ((
                            #[trigger] vars.local_wires@[w]) as int) < builder.nodes@.len()
                                && node_degree(builder.nodes@, vars.local_wires@[w] as int) <= 1,
                        forall|env: Seq<(int, int)>, w: int|
                            0 <= w < vars.local_wires@.len() ==> #[trigger] node_value(
                                builder.nodes@,
                                env,
                                vars.local_wires@[w] as int,
                            ) == recorded_wire_values(
                                old(builder).nodes@,
                                vars.local_wires@,
                                env,
                            )[w],
                        forall|k: int|
                            0 <= k < cur@.len() ==> ((#[trigger] cur@[k]) as int)
                                < builder.nodes@.len() && node_degree(
                                builder.nodes@,
                                cur@[k] as int,
                            ) <= 1 + lvl,
                        forall|env: Seq<(int, int)>| #[trigger] e_fold_all(
                            self.e_wires_items(
                                recorded_wire_values(old(builder).nodes@, vars.local_wires@, env),
                                copy as int,
                            ),
                            self.e_wires_bits(
                                recorded_wire_values(old(builder).nodes@, vars.local_wires@, env),
                                copy as int,
                            ).take(lvl as int),
                        ).len() == cur_width,
                        forall|env: Seq<(int, int)>, k: int|
                            0 <= k < cur@.len() ==> #[trigger] node_value(
                                builder.nodes@,
                                env,
                                cur@[k] as int,
                            ) == e_fold_all(
                                self.e_wires_items(
                                    recorded_wire_values(
                                        old(builder).nodes@,
                                        vars.local_wires@,
                                        env,
                                    ),
                                    copy as int,
                                ),
                                self.e_wires_bits(
                                    recorded_wire_values(
                                        old(builder).nodes@,
                                        vars.local_wires@,
                                        env,
                                    ),
                                    copy as int,
                                ).take(lvl as int),
                            )[k],
                        next@.len() == p,
                        forall|k: int|
                            0 <= k < next@.len() ==> ((#[trigger] next@[k]) as int)
                                < builder.nodes@.len() && node_degree(
                                builder.nodes@,
                                next@[k] as int,
                            ) <= 2 + lvl,
                        forall|env: Seq<(int, int)>, q: int|
                            0 <= q < next@.len() ==> #[trigger] node_value(
                                builder.nodes@,
                                env,
                                next@[q] as int,
                            ) == e_fold_all(
                                self.e_wires_items(
                                    recorded_wire_values(
                                        old(builder).nodes@,
                                        vars.local_wires@,
                                        env,
                                    ),
                                    copy as int,
                                ),
                                self.e_wires_bits(
                                    recorded_wire_values(
                                        old(builder).nodes@,
                                        vars.local_wires@,
                                        env,
                                    ),
                                    copy as int,
                                ).take(lvl as int + 1),
                            )[q],
                        constraints@.len() == copy * (bits + 2) + bits + 1,
                        forall|j: int|
                            0 <= j < constraints@.len() ==> ((#[trigger] constraints@[j]) as int)
                                < builder.nodes@.len() && node_degree(
                                builder.nodes@,
                                constraints@[j] as int,
                            ) <= self.spec_degree(),
                        forall|env: Seq<(int, int)>, j: int|
                            0 <= j < constraints@.len() ==> #[trigger] node_value(
                                builder.nodes@,
                                env,
                                constraints@[j] as int,
                            ) == self.e_constraint(
                                recorded_wire_values(old(builder).nodes@, vars.local_wires@, env),
                                j,
                            ),
                    decreases half - p,
                {
                    let x = cur[2 * p];
                    let y = cur[2 * p + 1];
                    let ghost pre = builder.nodes@;
                    let s = builder.select_ext_generalized(b, y, x);
                    let ghost pre_n = next@;
                    next.push(s);
                    p = p + 1;
                    proof {
                        lemma_prefix_trans(old(builder).nodes@, pre, builder.nodes@);
                        lemma_degrees_le_preserved(pre, builder.nodes@, vars.local_wires@, 1);
                        lemma_degrees_le_preserved(
                            pre,
                            builder.nodes@,
                            constraints@,
                            self.spec_degree(),
                        );
                        lemma_degrees_le_preserved(pre, builder.nodes@, cur@, 1 + lvl as int);
                        lemma_degrees_le_preserved(pre, builder.nodes@, pre_n, 2 + lvl as int);
                        lemma_node_degree_prefix(pre, builder.nodes@, zero as int);
                        lemma_node_degree_prefix(pre, builder.nodes@, two as int);
                        lemma_node_degree_prefix(pre, builder.nodes@, b as int);
                        lemma_values_preserved(pre, builder.nodes@, vars.local_wires@);
                        lemma_values_preserved(pre, builder.nodes@, constraints@);
                        lemma_values_preserved(pre, builder.nodes@, cur@);
                        lemma_values_preserved(pre, builder.nodes@, pre_n);
                        assert forall|env: Seq<(int, int)>| #[trigger] node_value(
                            builder.nodes@,
                            env,
                            zero as int,
                        ) == (0int, 0int) by {
                            lemma_node_value_prefix(pre, builder.nodes@, env, zero as int);
                        }
                        assert forall|env: Seq<(int, int)>| #[trigger] node_value(
                            builder.nodes@,
                            env,
                            two as int,
                        ) == (2int, 0int) by {
                            lemma_node_value_prefix(pre, builder.nodes@, env, two as int);
                        }
                        assert(next@.drop_last() =~= pre_n);
                        assert forall|k: int|
                            0 <= k < next@.len() implies ((#[trigger] next@[k]) as int)
                            < builder.nodes@.len() && node_degree(builder.nodes@, next@[k] as int)
                            <= 2 + lvl by {
                            if k < next@.len() - 1 {
                                assert(next@[k] == pre_n[k]);
                            }
                        }
                        assert forall|env: Seq<(int, int)>, q: int|
                            0 <= q < next@.len() implies #[trigger] node_value(
                            builder.nodes@,
                            env,
                            next@[q] as int,
                        ) == e_fold_all(
                            self.e_wires_items(
                                recorded_wire_values(old(builder).nodes@, vars.local_wires@, env),
                                copy as int,
                            ),
                            self.e_wires_bits(
                                recorded_wire_values(old(builder).nodes@, vars.local_wires@, env),
                                copy as int,
                            ).take(lvl as int + 1),
                        )[q] by {
                            let w0 = recorded_wire_values(
                                old(builder).nodes@,
                                vars.local_wires@,
                                env,
                            );
                            self.lemma_wire_index_bounds(copy as int);
                            let items0 = self.e_wires_items(w0, copy as int);
                            let bs = self.e_wires_bits(w0, copy as int);
                            if q < next@.len() - 1 {
                                assert(next@[q] == pre_n[q]);
                            } else {
                                let fold_prev = e_fold_all(items0, bs.take(lvl as int));
                                lemma_node_value_prefix(pre, builder.nodes@, env, cur@[2 * (
                                q as int)] as int);
                                lemma_node_value_prefix(pre, builder.nodes@, env, cur@[2 * (
                                q as int) + 1] as int);
                                assert(node_value(pre, env, cur@[2 * (q as int)] as int)
                                    == fold_prev[2 * (q as int)]);
                                assert(node_value(pre, env, cur@[2 * (q as int) + 1] as int)
                                    == fold_prev[2 * (q as int) + 1]);
                                assert(b == vars.local_wires@[self.spec_wire_bit(
                                    lvl as int,
                                    copy as int,
                                )]);
                                assert(node_value(
                                    builder.nodes@,
                                    env,
                                    vars.local_wires@[self.spec_wire_bit(
                                        lvl as int,
                                        copy as int,
                                    )] as int,
                                ) == w0[self.spec_wire_bit(lvl as int, copy as int)]);
                                assert(node_value(builder.nodes@, env, b as int) == w0[
                                    self.spec_wire_bit(lvl as int, copy as int)]);
                                assert(bs[lvl as int] == w0[self.spec_wire_bit(
                                    lvl as int,
                                    copy as int,
                                )]);
                                lemma_e_fold_all_push(items0, bs.take(lvl as int), bs[lvl as int]);
                                assert(bs.take(lvl as int).push(bs[lvl as int]) =~= bs.take(
                                    lvl as int + 1,
                                ));
                                assert(e_fold_all(items0, bs.take(lvl as int + 1)) == e_fold_once(
                                    fold_prev,
                                    bs[lvl as int],
                                ));
                                assert(e_fold_once(fold_prev, bs[lvl as int])[q as int]
                                    == crate::constraints::e_select(
                                    bs[lvl as int],
                                    fold_prev[2 * (q as int)],
                                    fold_prev[2 * (q as int) + 1],
                                ));
                            }
                        }
                    }
                }
                proof {
                    assert forall|env: Seq<(int, int)>| #[trigger] e_fold_all(
                        self.e_wires_items(
                            recorded_wire_values(old(builder).nodes@, vars.local_wires@, env),
                            copy as int,
                        ),
                        self.e_wires_bits(
                            recorded_wire_values(old(builder).nodes@, vars.local_wires@, env),
                            copy as int,
                        ).take(lvl as int + 1),
                    ).len() == half by {
                        let w0 = recorded_wire_values(old(builder).nodes@, vars.local_wires@, env);
                        let items0 = self.e_wires_items(w0, copy as int);
                        let bs = self.e_wires_bits(w0, copy as int);
                        lemma_e_fold_all_push(items0, bs.take(lvl as int), bs[lvl as int]);
                        assert(bs.take(lvl as int).push(bs[lvl as int]) =~= bs.take(
                            lvl as int + 1,
                        ));
                    }
                }
                cur = next;
                cur_width = half;
                lvl = lvl + 1;
            }
            proof {
                lemma2_to64();
                assert(cur@.len() == 1);
            }
            let ghost pre_f = builder.nodes@;
            let c_fold = builder.sub_extension(cur[0], claimed_element);
            let ghost pre_c = constraints@;
            constraints.push(c_fold);
            proof {
                self.lemma_wf_bounds();
                self.lemma_constraint_slot(copy as int, bits as int + 1);
                assert((copy + 1) * (bits + 2) == copy * (bits + 2) + (bits + 2))
                    by (nonlinear_arith);
                lemma_prefix_trans(old(builder).nodes@, pre_f, builder.nodes@);
                lemma_degrees_le_preserved(pre_f, builder.nodes@, vars.local_wires@, 1);
                lemma_degrees_le_preserved(pre_f, builder.nodes@, pre_c, self.spec_degree());
                lemma_node_degree_prefix(pre_f, builder.nodes@, zero as int);
                lemma_node_degree_prefix(pre_f, builder.nodes@, two as int);
                lemma_node_degree_prefix(pre_f, builder.nodes@, cur@[0] as int);
                lemma_values_preserved(pre_f, builder.nodes@, vars.local_wires@);
                lemma_values_preserved(pre_f, builder.nodes@, pre_c);
                assert forall|env: Seq<(int, int)>| #[trigger] node_value(
                    builder.nodes@,
                    env,
                    zero as int,
                ) == (0int, 0int) by {
                    lemma_node_value_prefix(pre_f, builder.nodes@, env, zero as int);
                }
                assert forall|env: Seq<(int, int)>| #[trigger] node_value(
                    builder.nodes@,
                    env,
                    two as int,
                ) == (2int, 0int) by {
                    lemma_node_value_prefix(pre_f, builder.nodes@, env, two as int);
                }
                assert(constraints@.drop_last() =~= pre_c);
                assert forall|j: int|
                    0 <= j < constraints@.len() implies ((#[trigger] constraints@[j]) as int)
                    < builder.nodes@.len() && node_degree(builder.nodes@, constraints@[j] as int)
                    <= self.spec_degree() by {
                    if j < constraints@.len() - 1 {
                        assert(constraints@[j] == pre_c[j]);
                    }
                }
                assert forall|env: Seq<(int, int)>, j: int|
                    0 <= j < constraints@.len() implies #[trigger] node_value(
                    builder.nodes@,
                    env,
                    constraints@[j] as int,
                ) == self.e_constraint(
                    recorded_wire_values(old(builder).nodes@, vars.local_wires@, env),
                    j,
                ) by {
                    let w0 = recorded_wire_values(old(builder).nodes@, vars.local_wires@, env);
                    self.lemma_wire_index_bounds(copy as int);
                    if j < constraints@.len() - 1 {
                        assert(constraints@[j] == pre_c[j]);
                    } else {
                        let items0 = self.e_wires_items(w0, copy as int);
                        let bs = self.e_wires_bits(w0, copy as int);
                        lemma_node_value_prefix(pre_f, builder.nodes@, env, cur@[0] as int);
                        assert(node_value(pre_f, env, cur@[0] as int) == e_fold_all(
                            items0,
                            bs.take(bits as int),
                        )[0]);
                        assert(bs.take(bits as int) =~= bs);
                        assert(claimed_element == vars.local_wires@[self.spec_wire_claimed_element(
                            copy as int,
                        )]);
                        assert(node_value(
                            builder.nodes@,
                            env,
                            vars.local_wires@[self.spec_wire_claimed_element(
                                copy as int,
                            )] as int,
                        ) == w0[self.spec_wire_claimed_element(copy as int)]);
                        assert(node_value(builder.nodes@, env, claimed_element as int) == w0[
                            self.spec_wire_claimed_element(copy as int)]);
                    }
                }
            }
        }
        constraints
    }
}


} // verus!
