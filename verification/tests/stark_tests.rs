use witness_engine::extension::QuadraticExtension;
use witness_engine::field::FieldElement;
use witness_engine::packed::PackedBase;
use witness_engine::recorder::CircuitRecorder;
use witness_engine::stark::{
    ceil_div_usize, ConstraintConsumer, ConstraintConsumerExt, FriOracleInfo, FriPolynomialInfo,
    RecursiveConstraintConsumer, SquareTransitionStark, Stark, StarkConfig, StarkEvaluationTargets,
    StarkEvaluationVars, StarkEvaluationVarsExt,
};

fn f(n: u64) -> FieldElement {
    FieldElement::from_canonical_u64(n)
}

fn ext(n: u64) -> QuadraticExtension {
    QuadraticExtension::from_base(f(n))
}

#[test]
fn ceil_division() {
    assert_eq!(ceil_div_usize(0, 5), 0);
    assert_eq!(ceil_div_usize(6, 3), 2);
    assert_eq!(ceil_div_usize(7, 3), 3);
    assert_eq!(ceil_div_usize(1, 1), 1);
}

#[test]
fn stark_bookkeeping() {
    let stark = SquareTransitionStark {};
    assert_eq!(stark.num_columns(), 1);
    assert_eq!(stark.num_public_inputs(), 0);
    assert_eq!(stark.constraint_degree(), 2);
    assert_eq!(stark.quotient_degree_factor(), 1);
    assert_eq!(stark.permutation_batch_size(), 1);
    assert!(!stark.uses_permutation_args());
    let config = StarkConfig { num_challenges: 2 };
    assert_eq!(stark.num_permutation_instances(&config), 0);
    assert_eq!(stark.num_permutation_batches(&config), 0);
}

#[test]
fn fri_instance_layout() {
    let stark = SquareTransitionStark {};
    let config = StarkConfig { num_challenges: 2 };
    let zeta = QuadraticExtension { c0: f(3), c1: f(4) };
    let g = f(5);
    let instance = stark.fri_instance(zeta, g, &config);
    // No permutation argument: a trace oracle and a quotient oracle.
    assert_eq!(instance.oracles.len(), 2);
    assert!(instance.oracles.iter().all(|o| *o == FriOracleInfo { blinding: false }));
    assert_eq!(instance.batches.len(), 2);
    // Opened at zeta: the one trace polynomial and two quotient polynomials.
    let b0 = &instance.batches[0];
    assert_eq!(b0.point.c0.to_canonical_u64(), 3);
    assert_eq!(b0.point.c1.to_canonical_u64(), 4);
    assert_eq!(
        b0.polynomials,
        vec![
            FriPolynomialInfo { oracle_index: 0, polynomial_index: 0 },
            FriPolynomialInfo { oracle_index: 1, polynomial_index: 0 },
            FriPolynomialInfo { oracle_index: 1, polynomial_index: 1 },
        ]
    );
    // Opened at zeta * g: the trace polynomial only.
    let b1 = &instance.batches[1];
    assert_eq!(b1.point.c0.to_canonical_u64(), 15);
    assert_eq!(b1.point.c1.to_canonical_u64(), 20);
    assert_eq!(
        b1.polynomials,
        vec![FriPolynomialInfo { oracle_index: 0, polynomial_index: 0 }]
    );
}

#[test]
fn fri_instance_target_layout() {
    let stark = SquareTransitionStark {};
    let config = StarkConfig { num_challenges: 1 };
    let mut builder = CircuitRecorder::new();
    let zeta = builder.add_input();
    let g = f(5);
    let instance = stark.fri_instance_target(&mut builder, zeta, g, &config);
    assert_eq!(instance.oracles.len(), 2);
    assert_eq!(instance.batches.len(), 2);
    assert_eq!(instance.batches[0].point, zeta);
    // The second opening point is the recorded product zeta * g.
    let values = builder.eval(&vec![QuadraticExtension { c0: f(3), c1: f(4) }]);
    let right = values[instance.batches[1].point];
    assert_eq!(right.c0.to_canonical_u64(), 15);
    assert_eq!(right.c1.to_canonical_u64(), 20);
    assert_eq!(instance.batches[0].polynomials.len(), 2);
    assert_eq!(instance.batches[1].polynomials.len(), 1);
}

#[test]
fn square_transition_cross_mode() {
    let stark = SquareTransitionStark {};
    // local = 3, next = 9 satisfies the transition; local = 3, next = 10
    // misses it by one.
    let good_vars_ext = StarkEvaluationVarsExt {
        local_values: vec![ext(3)],
        next_values: vec![ext(9)],
        public_inputs: Vec::new(),
    };
    let mut ext_consumer = ConstraintConsumerExt::new();
    stark.eval_ext(&good_vars_ext, &mut ext_consumer);
    assert_eq!(ext_consumer.constraints.len(), 1);
    assert!(ext_consumer.constraints[0].is_zero());

    let packed_vars = StarkEvaluationVars {
        local_values: vec![PackedBase::from_lanes(vec![f(3), f(3)])],
        next_values: vec![PackedBase::from_lanes(vec![f(9), f(10)])],
        public_inputs: Vec::new(),
    };
    let mut consumer = ConstraintConsumer::new();
    stark.eval_packed_base(&packed_vars, &mut consumer);
    assert_eq!(consumer.constraints.len(), 1);
    let lanes = &consumer.constraints[0];
    assert_eq!(lanes.lane(0).to_canonical_u64(), 0);
    // 9 - 10 wraps to the field's largest residue.
    assert_eq!(
        lanes.lane(1).to_canonical_u64(),
        witness_engine::field::FIELD_ORDER - 1
    );

    let mut builder = CircuitRecorder::new();
    let local = builder.add_input();
    let next = builder.add_input();
    let vars = StarkEvaluationTargets {
        local_values: vec![local],
        next_values: vec![next],
        public_inputs: Vec::new(),
    };
    let mut rec_consumer = RecursiveConstraintConsumer::new();
    stark.eval_ext_recursively(&mut builder, &vars, &mut rec_consumer);
    assert_eq!(rec_consumer.constraints.len(), 1);
    let values = builder.eval(&vec![ext(3), ext(9)]);
    assert!(values[rec_consumer.constraints[0]].is_zero());
}
