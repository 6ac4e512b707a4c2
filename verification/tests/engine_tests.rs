use witness_engine::extension::QuadraticExtension;
use witness_engine::field::{FieldElement, FIELD_ORDER};
use witness_engine::gates::RandomAccessGate;
use witness_engine::generator::{
    generate_partial_witness, AnyWitnessGenerator, CopyGenerator, GeneratedValues,
    NonzeroTestGenerator, RandomValueGenerator, SimpleGenerator, WitnessGenerator,
};
use witness_engine::target::{
    BigUintTarget, BigUintValue, BoolTarget, ExtensionTarget, HashOut, HashOutTarget, Target,
    U32Target, Wire,
};
use witness_engine::witness::{PartialWitness, PartitionWitness};
use witness_engine::CircuitError;

fn f(n: u64) -> FieldElement {
    FieldElement::from_canonical_u64(n)
}

fn vt(i: usize) -> Target {
    Target::virtual_target(i)
}

fn virtual_only_map(n: usize) -> Vec<usize> {
    (0..n).collect()
}

#[test]
fn fixpoint_well_founded_chain_terminates() {
    // B copies the seed into the middle target; A copies the middle target
    // onward. Both must complete.
    let generators = vec![
        AnyWitnessGenerator::CopyValue(CopyGenerator { src: vt(1), dst: vt(2) }.adapter()),
        AnyWitnessGenerator::CopyValue(CopyGenerator { src: vt(0), dst: vt(1) }.adapter()),
    ];
    let mut inputs = PartialWitness::new();
    inputs.set_target(vt(0), f(5));
    let r = generate_partial_witness(inputs, &generators, 0, 0, 3, virtual_only_map(3));
    match r {
        Ok(w) => {
            assert_eq!(w.try_get_target(vt(1)), Some(f(5)));
            assert_eq!(w.try_get_target(vt(2)), Some(f(5)));
        },
        Err(_) => panic!("generation deadlocked on a well-founded chain"),
    }
}

#[test]
fn no_generators_returns_seeded_witness() {
    // With no generators the engine returns exactly the inputs-seeded
    // assignment; a later input to the same class wins.
    let mut inputs = PartialWitness::new();
    inputs.set_target(vt(0), f(3));
    inputs.set_target(vt(1), f(8));
    let generators: Vec<AnyWitnessGenerator> = Vec::new();
    let r = generate_partial_witness(inputs, &generators, 0, 0, 2, vec![0, 0]);
    match r {
        Ok(w) => {
            assert_eq!(w.try_get_target(vt(0)), Some(f(8)));
            assert_eq!(w.try_get_target(vt(1)), Some(f(8)));
        },
        Err(_) => panic!("an empty generator set cannot fail"),
    }
}

#[test]
fn untouched_class_keeps_seeded_value() {
    // Target 3 belongs to a class no generator writes: its seeded value
    // survives the run unchanged.
    let generators = vec![
        AnyWitnessGenerator::CopyValue(CopyGenerator { src: vt(0), dst: vt(1) }.adapter()),
    ];
    let mut inputs = PartialWitness::new();
    inputs.set_target(vt(0), f(6));
    inputs.set_target(vt(3), f(42));
    let r = generate_partial_witness(inputs, &generators, 0, 0, 4, virtual_only_map(4));
    match r {
        Ok(w) => {
            assert_eq!(w.try_get_target(vt(3)), Some(f(42)));
            assert_eq!(w.try_get_target(vt(1)), Some(f(6)));
        },
        Err(_) => panic!("a seeded copy generator cannot fail"),
    }
}

#[test]
fn fixpoint_mutual_dependency_deadlocks() {
    let generators = vec![
        AnyWitnessGenerator::CopyValue(CopyGenerator { src: vt(0), dst: vt(1) }.adapter()),
        AnyWitnessGenerator::CopyValue(CopyGenerator { src: vt(1), dst: vt(0) }.adapter()),
    ];
    let inputs = PartialWitness::new();
    let r = generate_partial_witness(inputs, &generators, 0, 0, 2, virtual_only_map(2));
    match r {
        Ok(_) => panic!("generation must report deadlock"),
        Err(e) => assert_eq!(e, CircuitError::Deadlock),
    }
}

#[test]
fn equivalence_class_reads_back_same_value() {
    // Targets 0 and 1 form one copy-constrained class.
    let mut w = PartitionWitness::new(0, 0, 3, vec![0, 0, 2]);
    w.set_target(vt(0), f(9));
    assert_eq!(w.try_get_target(vt(1)), Some(f(9)));
    assert_eq!(w.try_get_target(vt(2)), None);
    assert!(w.contains(vt(1)));
    assert!(!w.contains(vt(2)));
    // The later write wins within a class.
    w.set_target(vt(1), f(4));
    assert_eq!(w.try_get_target(vt(0)), Some(f(4)));
}

#[test]
fn equivalence_class_triggers_watching_generator() {
    // The generator watches target 1; the input arrives on target 0 of the
    // same class, and the generator must still fire.
    let generators = vec![
        AnyWitnessGenerator::CopyValue(CopyGenerator { src: vt(1), dst: vt(2) }.adapter()),
    ];
    let mut inputs = PartialWitness::new();
    inputs.set_target(vt(0), f(7));
    let r = generate_partial_witness(inputs, &generators, 0, 0, 3, vec![0, 0, 2]);
    match r {
        Ok(w) => assert_eq!(w.try_get_target(vt(2)), Some(f(7))),
        Err(_) => panic!("the watching generator never fired"),
    }
}

#[test]
fn random_access_generators_complete_through_engine() {
    let gate = RandomAccessGate::new(2, 2);
    let num_wires = gate.num_wires();
    let generators = gate.generators(0, &Vec::new());
    assert_eq!(generators.len(), 2);
    let mut inputs = PartialWitness::new();
    for copy in 0..2 {
        inputs.set_target(Target::wire(0, gate.wire_access_index(copy)), f(3));
        for i in 0..4 {
            inputs.set_target(
                Target::wire(0, gate.wire_list_item(i, copy)),
                f(100 + 10 * copy as u64 + i as u64),
            );
        }
    }
    let r = generate_partial_witness(inputs, &generators, num_wires, 1, 0, virtual_only_map(num_wires));
    match r {
        Ok(w) => {
            for copy in 0..2 {
                let claimed = w
                    .try_get_target(Target::wire(0, gate.wire_claimed_element(copy)))
                    .unwrap();
                assert_eq!(claimed.to_canonical_u64(), 103 + 10 * copy as u64);
                let b0 = w.try_get_target(Target::wire(0, gate.wire_bit(0, copy))).unwrap();
                let b1 = w.try_get_target(Target::wire(0, gate.wire_bit(1, copy))).unwrap();
                assert_eq!(b0.to_canonical_u64(), 1);
                assert_eq!(b1.to_canonical_u64(), 1);
            }
        },
        Err(_) => panic!("expected a completed witness"),
    }
}

#[test]
fn engine_propagates_generator_failure() {
    let gate = RandomAccessGate::new(1, 1);
    let num_wires = gate.num_wires();
    let generators = gate.generators(0, &Vec::new());
    let mut inputs = PartialWitness::new();
    // Access index 2 on a two-element list is out of range.
    inputs.set_target(Target::wire(0, gate.wire_access_index(0)), f(2));
    inputs.set_target(Target::wire(0, gate.wire_list_item(0, 0)), f(8));
    inputs.set_target(Target::wire(0, gate.wire_list_item(1, 0)), f(9));
    let r = generate_partial_witness(inputs, &generators, num_wires, 1, 0, virtual_only_map(num_wires));
    match r {
        Ok(_) => panic!("an out-of-range access index must abort generation"),
        Err(e) => assert_eq!(e, CircuitError::AccessIndexOutOfRange),
    }
}

#[test]
fn nonzero_test_generator_witnesses_inverse() {
    let mut w = PartitionWitness::new(0, 0, 2, virtual_only_map(2));
    w.set_target(vt(0), f(4));
    let g = NonzeroTestGenerator { to_test: vt(0), dummy: vt(1) };
    let mut out = GeneratedValues::empty();
    assert!(g.run_once(&w, &mut out).is_ok());
    let (t, v) = out.target_values[0];
    assert_eq!(t, vt(1));
    assert_eq!(v.mul(f(4)).to_canonical_u64(), 1);
}

#[test]
fn nonzero_test_generator_on_zero_sets_one() {
    let mut w = PartitionWitness::new(0, 0, 2, virtual_only_map(2));
    w.set_target(vt(0), f(0));
    let g = NonzeroTestGenerator { to_test: vt(0), dummy: vt(1) };
    let mut out = GeneratedValues::empty();
    assert!(g.run_once(&w, &mut out).is_ok());
    let (t, v) = out.target_values[0];
    assert_eq!(t, vt(1));
    assert_eq!(v.to_canonical_u64(), 1);
}

#[test]
fn random_value_generator_runs_without_dependencies() {
    let g = RandomValueGenerator { target: vt(0) }.adapter();
    assert_eq!(g.watch_list().len(), 0);
    let w = PartitionWitness::new(0, 0, 1, virtual_only_map(1));
    let mut out = GeneratedValues::empty();
    let finished = g.run(&w, &mut out).unwrap();
    assert!(finished);
    assert_eq!(out.target_values.len(), 1);
    assert_eq!(out.target_values[0].0, vt(0));
    assert!(out.target_values[0].1.value < FIELD_ORDER);
}

#[test]
fn adapter_waits_for_dependencies() {
    let g = CopyGenerator { src: vt(0), dst: vt(1) }.adapter();
    let w = PartitionWitness::new(0, 0, 2, virtual_only_map(2));
    let mut out = GeneratedValues::empty();
    // The dependency is unassigned: the adapter reports "not finished" and
    // produces nothing.
    let finished = g.run(&w, &mut out).unwrap();
    assert!(!finished);
    assert_eq!(out.target_values.len(), 0);
}

#[test]
fn generated_values_setters() {
    let mut buf = GeneratedValues::with_capacity(4);
    buf.set_target(vt(0), f(1));
    buf.set_wire(Wire { gate: 2, input: 3 }, f(5));
    buf.set_bool_target(BoolTarget::new_unsafe(vt(1)), true);
    buf.set_u32_target(U32Target(vt(2)), 77);
    assert_eq!(buf.target_values.len(), 4);
    assert_eq!(buf.target_values[0], (vt(0), f(1)));
    assert_eq!(buf.target_values[1].0, Target::wire(2, 3));
    assert_eq!(buf.target_values[1].1.to_canonical_u64(), 5);
    assert_eq!(buf.target_values[2].1.to_canonical_u64(), 1);
    assert_eq!(buf.target_values[3].1.to_canonical_u64(), 77);
    buf.clear();
    assert_eq!(buf.target_values.len(), 0);
}

#[test]
fn generated_values_biguint_pads_missing_limbs() {
    let target = BigUintTarget { limbs: vec![U32Target(vt(0)), U32Target(vt(1)), U32Target(vt(2))] };
    let value = BigUintValue { limbs: vec![7, 9] };
    let mut buf = GeneratedValues::empty();
    buf.set_biguint_target(&target, &value);
    assert_eq!(buf.target_values.len(), 3);
    assert_eq!(buf.target_values[0], (vt(0), f(7)));
    assert_eq!(buf.target_values[1], (vt(1), f(9)));
    assert_eq!(buf.target_values[2], (vt(2), f(0)));
}

#[test]
fn generated_values_composite_setters() {
    let ht = HashOutTarget { elements: [vt(0), vt(1), vt(2), vt(3)] };
    let hv = HashOut { elements: [f(1), f(2), f(3), f(4)] };
    let mut buf = GeneratedValues::empty();
    buf.set_hash_target(ht, hv);
    assert_eq!(buf.target_values.len(), 4);
    assert_eq!(buf.target_values[3], (vt(3), f(4)));

    let et = ExtensionTarget([vt(4), vt(5)]);
    let ev = QuadraticExtension { c0: f(6), c1: f(7) };
    buf.set_extension_target(et, ev);
    assert_eq!(buf.target_values.len(), 6);
    assert_eq!(buf.target_values[4], (vt(4), f(6)));
    assert_eq!(buf.target_values[5], (vt(5), f(7)));

    let single = GeneratedValues::singleton_extension_target(et, ev);
    assert_eq!(single.target_values.len(), 2);
    assert_eq!(single.target_values[0], (vt(4), f(6)));

    let sw = GeneratedValues::singleton_wire(Wire { gate: 0, input: 1 }, f(9));
    assert_eq!(sw.target_values, vec![(Target::wire(0, 1), f(9))]);
    let st = GeneratedValues::singleton_target(vt(8), f(2));
    assert_eq!(st.target_values, vec![(vt(8), f(2))]);

    let from_pairs = GeneratedValues::from(vec![(vt(0), f(3))]);
    assert_eq!(from_pairs.target_values.len(), 1);
}

#[test]
fn generated_values_wire_lists() {
    let wires = vec![Wire { gate: 0, input: 0 }, Wire { gate: 0, input: 1 }, Wire {
        gate: 0,
        input: 2,
    }];
    let values = vec![f(10), f(20)];
    let mut buf = GeneratedValues::empty();
    // The shorter list bounds the number of pairs.
    buf.set_wires(&wires, &values);
    assert_eq!(buf.target_values.len(), 2);
    assert_eq!(buf.target_values[1], (Target::wire(0, 1), f(20)));

    let ext_wires = vec![Wire { gate: 1, input: 0 }, Wire { gate: 1, input: 1 }];
    let mut buf2 = GeneratedValues::empty();
    buf2.set_ext_wires(&ext_wires, QuadraticExtension { c0: f(5), c1: f(6) });
    assert_eq!(buf2.target_values.len(), 2);
    assert_eq!(buf2.target_values[0], (Target::wire(1, 0), f(5)));
    assert_eq!(buf2.target_values[1], (Target::wire(1, 1), f(6)));
}
