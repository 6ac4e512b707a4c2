use rand::{thread_rng, Rng};
use witness_engine::extension::QuadraticExtension;
use witness_engine::field::FieldElement;
use witness_engine::gates::{
    CircuitConfig, EvaluationTargets, EvaluationVars, EvaluationVarsBaseBatch, RandomAccessGate,
    RandomAccessGenerator, StridedConstraintConsumer,
};
use witness_engine::generator::{GeneratedValues, SimpleGenerator};
use witness_engine::recorder::CircuitRecorder;
use witness_engine::target::{HashOut, Target};
use witness_engine::witness::PartitionWitness;
use witness_engine::CircuitError;

fn rand_field() -> FieldElement {
    FieldElement::sample()
}

fn rand_hash() -> HashOut {
    HashOut { elements: [rand_field(), rand_field(), rand_field(), rand_field()] }
}

/// Returns the local wires for a random access gate given the vectors,
/// elements to compare, and indices.
fn get_wires(
    bits: usize,
    lists: Vec<Vec<FieldElement>>,
    access_indices: Vec<usize>,
    claimed_elements: Vec<FieldElement>,
) -> Vec<QuadraticExtension> {
    let num_copies = lists.len();
    let vec_size = lists[0].len();

    let mut v = Vec::new();
    let mut bit_vals = Vec::new();
    for copy in 0..num_copies {
        let access_index = access_indices[copy];
        v.push(FieldElement::from_canonical_usize(access_index));
        v.push(claimed_elements[copy]);
        for j in 0..vec_size {
            v.push(lists[copy][j]);
        }

        for i in 0..bits {
            bit_vals.push(FieldElement::from_bool(((access_index >> i) & 1) != 0));
        }
    }
    v.extend(bit_vals);

    v.iter().map(|&x| QuadraticExtension::from_base(x)).collect()
}

#[test]
fn test_gate_constraint() {
    let bits = 3;
    let vec_size = 1 << bits;
    let num_copies = 4;
    let lists: Vec<Vec<FieldElement>> = (0..num_copies)
        .map(|_| (0..vec_size).map(|_| rand_field()).collect())
        .collect();
    let access_indices: Vec<usize> = (0..num_copies)
        .map(|_| thread_rng().gen_range(0..vec_size))
        .collect();
    let gate = RandomAccessGate { bits, num_copies };

    let good_claimed_elements: Vec<FieldElement> = lists
        .iter()
        .zip(&access_indices)
        .map(|(l, &i)| l[i])
        .collect();
    let good_vars = EvaluationVars {
        local_constants: Vec::new(),
        local_wires: get_wires(
            bits,
            lists.clone(),
            access_indices.clone(),
            good_claimed_elements,
        ),
        public_inputs_hash: rand_hash(),
    };
    let bad_claimed_elements: Vec<FieldElement> = (0..4).map(|_| rand_field()).collect();
    let bad_vars = EvaluationVars {
        local_constants: Vec::new(),
        local_wires: get_wires(bits, lists, access_indices, bad_claimed_elements),
        public_inputs_hash: rand_hash(),
    };

    assert!(
        gate.eval_unfiltered(&good_vars).iter().all(|x| x.is_zero()),
        "Gate constraints are not satisfied."
    );
    assert!(
        !gate.eval_unfiltered(&bad_vars).iter().all(|x| x.is_zero()),
        "Gate constraints are satisfied but should not be."
    );
}

#[test]
fn low_degree() {
    let gate = RandomAccessGate::new(4, 4);
    // The declared degree for four index bits.
    assert_eq!(gate.degree(), 5);
    // Emit the constraints symbolically over degree-one inputs; the emission
    // carries the proved bound that no constraint node exceeds the declared
    // degree.
    let mut builder = CircuitRecorder::new();
    let mut wires = Vec::new();
    for _ in 0..gate.num_wires() {
        wires.push(builder.add_input());
    }
    let vars = EvaluationTargets { local_wires: wires };
    let constraint_nodes = gate.eval_unfiltered_recursively(&mut builder, &vars);
    assert_eq!(constraint_nodes.len(), gate.num_constraints());
}

#[test]
fn eval_fns() {
    let gate = RandomAccessGate::new(4, 4);
    let num_wires = gate.num_wires();
    let bits = 4;
    let vec_size = 1 << bits;
    let num_copies = 4;
    let lists: Vec<Vec<FieldElement>> = (0..num_copies)
        .map(|_| (0..vec_size).map(|_| rand_field()).collect())
        .collect();
    let access_indices: Vec<usize> = (0..num_copies)
        .map(|_| thread_rng().gen_range(0..vec_size))
        .collect();
    let claimed: Vec<FieldElement> = (0..num_copies).map(|_| rand_field()).collect();
    let ext_wires = get_wires(bits, lists, access_indices, claimed);
    assert_eq!(ext_wires.len(), num_wires);
    let base_row: Vec<FieldElement> = ext_wires.iter().map(|x| x.c0).collect();

    // Single-point extension-field mode.
    let ext_vars = EvaluationVars {
        local_constants: Vec::new(),
        local_wires: ext_wires.clone(),
        public_inputs_hash: rand_hash(),
    };
    let ext_out = gate.eval_unfiltered(&ext_vars);

    // Batched base-field mode, one row.
    let batch_vars = EvaluationVarsBaseBatch { local_wires: vec![base_row.clone()] };
    let base_out = gate.eval_unfiltered_base_batch(&batch_vars);
    assert_eq!(base_out.len(), ext_out.len());
    for c in 0..ext_out.len() {
        assert_eq!(ext_out[c].c0.to_canonical_u64(), base_out[c].to_canonical_u64());
        assert_eq!(ext_out[c].c1.to_canonical_u64(), 0);
    }

    // Recursive in-circuit mode, evaluated over the same inputs.
    let mut builder = CircuitRecorder::new();
    let mut wires = Vec::new();
    for _ in 0..num_wires {
        wires.push(builder.add_input());
    }
    let vars = EvaluationTargets { local_wires: wires };
    let constraint_nodes = gate.eval_unfiltered_recursively(&mut builder, &vars);
    let values = builder.eval(&ext_wires);
    assert_eq!(constraint_nodes.len(), ext_out.len());
    for c in 0..ext_out.len() {
        let v = values[constraint_nodes[c]];
        assert_eq!(v.c0.to_canonical_u64(), ext_out[c].c0.to_canonical_u64());
        assert_eq!(v.c1.to_canonical_u64(), ext_out[c].c1.to_canonical_u64());
    }
}

#[test]
fn wire_layout_formulas() {
    let gate = RandomAccessGate::new(2, 2);
    assert_eq!(gate.vec_size(), 4);
    assert_eq!(gate.wire_access_index(0), 0);
    assert_eq!(gate.wire_claimed_element(0), 1);
    assert_eq!(gate.wire_list_item(0, 0), 2);
    assert_eq!(gate.wire_access_index(1), 6);
    assert_eq!(gate.wire_claimed_element(1), 7);
    assert_eq!(gate.wire_list_item(2, 1), 10);
    assert_eq!(gate.start_of_intermediate_wires(), 12);
    assert_eq!(gate.num_routed_wires(), 12);
    assert_eq!(gate.wire_bit(0, 0), 12);
    assert_eq!(gate.wire_bit(1, 1), 15);
    assert_eq!(gate.num_wires(), 16);
    assert_eq!(gate.num_constraints(), 8);
    assert_eq!(gate.degree(), 3);
    assert_eq!(gate.num_constants(), 0);
}

#[test]
fn sizing_from_config() {
    // vec_size 16: a copy takes 18 routed wires and 22 wires in all.
    let config = CircuitConfig { num_wires: 135, num_routed_wires: 80 };
    let gate = RandomAccessGate::new_from_config(&config, 4);
    assert_eq!(gate.bits, 4);
    assert_eq!(gate.num_copies, 4);
}

#[test]
fn batch_constraint_values_exact() {
    // One copy over a two-element list: constraints are, in order,
    // b(b-1), (2*0 + b) - access, and item0 + b*(item1 - item0) - claimed.
    let gate = RandomAccessGate::new(1, 1);
    let f = |n: u64| FieldElement::from_canonical_u64(n);
    // access = 1, claimed = 10 (the true entry is 20), items = [10, 20], bit = 1.
    let row = vec![f(1), f(10), f(10), f(20), f(1)];
    let batch_vars = EvaluationVarsBaseBatch { local_wires: vec![row] };
    let out = gate.eval_unfiltered_base_batch(&batch_vars);
    assert_eq!(out.len(), 3);
    assert_eq!(out[0].to_canonical_u64(), 0);
    assert_eq!(out[1].to_canonical_u64(), 0);
    assert_eq!(out[2].to_canonical_u64(), 10);
}

#[test]
fn direct_base_row_evaluation_is_refused() {
    let gate = RandomAccessGate::new(1, 1);
    let batch_vars = EvaluationVarsBaseBatch { local_wires: Vec::new() };
    let mut consumer = StridedConstraintConsumer::new(0);
    let r = gate.eval_unfiltered_base_one(&batch_vars, &mut consumer);
    assert_eq!(r, Err(CircuitError::DisallowedBaseRowEvaluation));
}

fn witness_for_generator(
    gate: &RandomAccessGate,
    access: u64,
    items: &[u64],
) -> PartitionWitness {
    let num_wires = gate.num_wires();
    let rep_map: Vec<usize> = (0..num_wires).collect();
    let mut w = PartitionWitness::new(num_wires, 1, 0, rep_map);
    w.set_target(
        Target::wire(0, gate.wire_access_index(0)),
        FieldElement::from_canonical_u64(access),
    );
    for (i, &x) in items.iter().enumerate() {
        w.set_target(
            Target::wire(0, gate.wire_list_item(i, 0)),
            FieldElement::from_canonical_u64(x),
        );
    }
    w
}

#[test]
fn generator_out_of_range_access_fails() {
    let gate = RandomAccessGate::new(1, 3);
    let witness = witness_for_generator(&gate, 8, &[1, 2, 3, 4, 5, 6, 7, 9]);
    let generator = RandomAccessGenerator { gate_index: 0, gate, copy: 0 };
    let mut out = GeneratedValues::empty();
    let r = generator.run_once(&witness, &mut out);
    assert_eq!(r, Err(CircuitError::AccessIndexOutOfRange));
    assert_eq!(out.target_values.len(), 0);
}

#[test]
fn generator_sets_claimed_element_and_bits() {
    let gate = RandomAccessGate::new(1, 3);
    let witness = witness_for_generator(&gate, 5, &[10, 11, 12, 13, 14, 15, 16, 17]);
    let generator = RandomAccessGenerator { gate_index: 0, gate, copy: 0 };
    let mut out = GeneratedValues::empty();
    let r = generator.run_once(&witness, &mut out);
    assert!(r.is_ok());
    // One claimed element plus three bits.
    assert_eq!(out.target_values.len(), 4);
    let (t0, v0) = out.target_values[0];
    assert_eq!(t0, Target::wire(0, gate.wire_claimed_element(0)));
    assert_eq!(v0.to_canonical_u64(), 15);
    // 5 = 0b101, little-endian bits 1, 0, 1.
    let expected_bits = [1u64, 0, 1];
    for i in 0..3 {
        let (t, v) = out.target_values[1 + i];
        assert_eq!(t, Target::wire(0, gate.wire_bit(i, 0)));
        assert_eq!(v.to_canonical_u64(), expected_bits[i]);
    }
    // The dependency list names the access index and every list item.
    let deps = generator.dependencies();
    assert_eq!(deps.len(), 9);
    assert_eq!(deps[0], Target::wire(0, gate.wire_access_index(0)));
    assert_eq!(deps[3], Target::wire(0, gate.wire_list_item(2, 0)));
}
