//! The interface of a STARK system: a table of columns whose transition
//! constraints are evaluated over the batched base field, over the extension
//! field, and in-circuit, together with the derived bookkeeping — quotient
//! degree, permutation-argument batching, and the oracle/batch layout of the
//! low-degree-test instance handed to the proving layer.

use vstd::prelude::*;
use crate::constraints::embed_seq;
use crate::extension::{e_mul, e_scalar_mul, e_sub, embed_m, QuadraticExtension};
use crate::field::FieldElement;
use crate::gates::{ext_views, recorded_wire_values, row_residues};
use crate::packed::PackedBase;
use crate::recorder::{node_value, CircuitRecorder};

verus! {

/// The slice of the proving configuration this interface reads.
#[derive(Clone, Copy, PartialEq, Eq, Debug, Structural)]
pub struct StarkConfig {
    pub num_challenges: usize,
}

/// Lists of columns asserted to be permutations of one another.
#[derive(Clone, Debug)]
pub struct PermutationPair {
    pub column_pairs: Vec<(usize, usize)>,
}

/// One polynomial oracle of the low-degree-test instance.
#[derive(Clone, Copy, PartialEq, Eq, Debug, Structural)]
pub struct FriOracleInfo {
    pub blinding: bool,
}

/// A polynomial within an oracle.
#[derive(Clone, Copy, PartialEq, Eq, Debug, Structural)]
pub struct FriPolynomialInfo {
    pub oracle_index: usize,
    pub polynomial_index: usize,
}

/// The polynomials `start..end` of one oracle.
pub open spec fn poly_info_range(oracle_index: usize, start: int, end: int) -> Seq<
    FriPolynomialInfo,
> {
    Seq::new(
        if end >= start {
            (end - start) as nat
        } else {
            0nat
        },
        |i: int| FriPolynomialInfo { oracle_index, polynomial_index: (start + i) as usize },
    )
}

impl FriPolynomialInfo {
    pub fn from_range(oracle_index: usize, start: usize, end: usize) -> (v: Vec<
        FriPolynomialInfo,
    >)
        requires
            start <= end,
        ensures
            v@ == poly_info_range(oracle_index, start as int, end as int),
    {
        let mut v: Vec<FriPolynomialInfo> = Vec::new();
        let mut i = start;
        while i < end
            invariant
                start <= i <= end,
                v@.len() == i - start,
                forall|j: int|
                    0 <= j < v@.len() ==> #[trigger] v@[j] == (FriPolynomialInfo {
                        oracle_index,
                        polynomial_index: (start + j) as usize,
                    }),
            decreases end - i,
        {
            v.push(FriPolynomialInfo { oracle_index, polynomial_index: i });
            i = i + 1;
        }
        proof {
            assert(v@ =~= poly_info_range(oracle_index, start as int, end as int));
        }
        v
    }
}

/// One opening point and the polynomials opened there.
#[derive(Clone, Debug)]
pub struct FriBatchInfo {
    pub point: QuadraticExtension,
    pub polynomials: Vec<FriPolynomialInfo>,
}

/// The oracle and batch layout of a low-degree-test instance.
#[derive(Clone, Debug)]
pub struct FriInstanceInfo {
    pub oracles: Vec<FriOracleInfo>,
    pub batches: Vec<FriBatchInfo>,
}

/// `FriBatchInfo`, with the opening point as a recorder node.
#[derive(Clone, Debug)]
pub struct FriBatchInfoTarget {
    pub point: usize,
    pub polynomials: Vec<FriPolynomialInfo>,
}

/// `FriInstanceInfo`, with opening points as recorder nodes.
#[derive(Clone, Debug)]
pub struct FriInstanceInfoTarget {
    pub oracles: Vec<FriOracleInfo>,
    pub batches: Vec<FriBatchInfoTarget>,
}

/// A batch of evaluation points of a column table over the base field.
#[derive(Clone, Debug)]
pub struct StarkEvaluationVars {
    pub local_values: Vec<PackedBase>,
    pub next_values: Vec<PackedBase>,
    pub public_inputs: Vec<FieldElement>,
}

impl StarkEvaluationVars {
    /// The number of lanes (rows evaluated at once).
    pub open spec fn width(self) -> int {
        if self.local_values@.len() > 0 {
            self.local_values@[0]@.len() as int
        } else {
            0
        }
    }

    /// Every packed column carries the same number of lanes.
    pub open spec fn uniform(self) -> bool {
        &&& forall|w: int|
            0 <= w < self.local_values@.len() ==> (#[trigger] self.local_values@[w])@.len()
                == self.width()
        &&& forall|w: int|
            0 <= w < self.next_values@.len() ==> (#[trigger] self.next_values@[w])@.len()
                == self.width()
    }

    /// The local column values of one lane, embedded into the extension.
    pub open spec fn embedded_lane_local(self, r: int) -> Seq<(int, int)> {
        Seq::new(self.local_values@.len(), |w: int| embed_m(self.local_values@[w]@[r]))
    }

    /// The next-row column values of one lane, embedded into the extension.
    pub open spec fn embedded_lane_next(self, r: int) -> Seq<(int, int)> {
        Seq::new(self.next_values@.len(), |w: int| embed_m(self.next_values@[w]@[r]))
    }
}

/// A single evaluation point of a column table over the extension field.
#[derive(Clone, Debug)]
pub struct StarkEvaluationVarsExt {
    pub local_values: Vec<QuadraticExtension>,
    pub next_values: Vec<QuadraticExtension>,
    pub public_inputs: Vec<QuadraticExtension>,
}

/// An evaluation point of a column table, as recorder nodes.
#[derive(Clone, Debug)]
pub struct StarkEvaluationTargets {
    pub local_values: Vec<usize>,
    pub next_values: Vec<usize>,
    pub public_inputs: Vec<usize>,
}

/// Collects batched base-field constraint values.
#[derive(Clone, Debug)]
pub struct ConstraintConsumer {
    pub constraints: Vec<PackedBase>,
}

impl ConstraintConsumer {
    pub fn new() -> (r: Self)
        ensures
            r.constraints@.len() == 0,
    {
        ConstraintConsumer { constraints: Vec::new() }
    }

    pub fn constraint(&mut self, c: PackedBase)
        ensures
            final(self).constraints@ == old(self).constraints@.push(c),
    {
        self.constraints.push(c);
    }
}

/// Collects extension-field constraint values.
#[derive(Clone, Debug)]
pub struct ConstraintConsumerExt {
    pub constraints: Vec<QuadraticExtension>,
}

impl ConstraintConsumerExt {
    pub fn new() -> (r: Self)
        ensures
            r.constraints@.len() == 0,
    {
        ConstraintConsumerExt { constraints: Vec::new() }
    }

    pub fn constraint(&mut self, c: QuadraticExtension)
        ensures
            final(self).constraints@ == old(self).constraints@.push(c),
    {
        self.constraints.push(c);
    }
}

/// Collects constraint values as recorder nodes.
#[derive(Clone, Debug)]
pub struct RecursiveConstraintConsumer {
    pub constraints: Vec<usize>,
}

impl RecursiveConstraintConsumer {
    pub fn new() -> (r: Self)
        ensures
            r.constraints@.len() == 0,
    {
        RecursiveConstraintConsumer { constraints: Vec::new() }
    }

    pub fn constraint(&mut self, c: usize)
        ensures
            final(self).constraints@ == old(self).constraints@.push(c),
    {
        self.constraints.push(c);
    }
}


/// The concatenation of two polynomial-info lists.
pub fn concat_poly_infos(a: &Vec<FriPolynomialInfo>, b: &Vec<FriPolynomialInfo>) -> (r: Vec<
    FriPolynomialInfo,
>)
    ensures
        r@ == a@ + b@,
{
    let mut r: Vec<FriPolynomialInfo> = Vec::new();
    let na = a.len();
    for i in 0..na
        invariant
            na == a@.len(),
            r@.len() == i,
            forall|j: int| 0 <= j < i ==> #[trigger] r@[j] == a@[j],
    {
        r.push(a[i]);
    }
    let nb = b.len();
    for i in 0..nb
        invariant
            na == a@.len(),
            nb == b@.len(),
            r@.len() == na + i,
            forall|j: int| 0 <= j < na ==> #[trigger] r@[j] == a@[j],
            forall|j: int| na <= j < na + i ==> #[trigger] r@[j] == b@[j - na],
    {
        r.push(b[i]);
    }
    proof {
        assert(r@ =~= a@ + b@);
    }
    r
}

/// Represents a STARK system.
pub trait Stark {
    /// The total number of columns in the trace.
    spec fn spec_columns(&self) -> int;

    /// The number of public inputs.
    spec fn spec_public_inputs(&self) -> int;

    /// The maximum constraint degree.
    spec fn spec_constraint_degree(&self) -> int;

    /// The column lists under permutation arguments.
    spec fn spec_permutation_pairs(&self) -> Seq<PermutationPair>;

    fn num_columns(&self) -> (r: usize)
        ensures
            r as int == self.spec_columns(),
    ;

    fn num_public_inputs(&self) -> (r: usize)
        ensures
            r as int == self.spec_public_inputs(),
    ;

    /// The maximum constraint degree.
    fn constraint_degree(&self) -> (r: usize)
        ensures
            r as int == self.spec_constraint_degree(),
    ;

    /// Pairs of lists of columns that should be permutations of one another.
    fn permutation_pairs(&self) -> (v: Vec<PermutationPair>)
        ensures
            v@ == self.spec_permutation_pairs(),
    ;

    /// The one constraint family every evaluation mode computes: the values
    /// of the transition constraints at a single extension-field point. The
    /// base-field modes are held to it through the embedding.
    spec fn spec_constraints(
        &self,
        local_values: Seq<(int, int)>,
        next_values: Seq<(int, int)>,
        public_inputs: Seq<(int, int)>,
    ) -> Seq<(int, int)>;

    /// Evaluates the constraints on a batch of base-field points, one packed
    /// lane per row; every lane's values embed to the shared constraint
    /// family at that lane's embedded inputs.
    fn eval_packed_base(&self, vars: &StarkEvaluationVars, yield_constr: &mut ConstraintConsumer)
        requires
            vars.local_values@.len() == self.spec_columns(),
            vars.next_values@.len() == self.spec_columns(),
            vars.public_inputs@.len() == self.spec_public_inputs(),
            vars.uniform(),
        ensures
            ({
                let pre = old(yield_constr).constraints@;
                let post = final(yield_constr).constraints@;
                let width = vars.width();
                &&& post.len() >= pre.len()
                &&& post.subrange(0, pre.len() as int) == pre
                &&& forall|c: int|
                    pre.len() <= c < post.len() ==> (#[trigger] post[c])@.len() == width
                &&& forall|rr: int|
                    0 <= rr < width ==> (#[trigger] self.spec_constraints(
                        vars.embedded_lane_local(rr),
                        vars.embedded_lane_next(rr),
                        embed_seq(row_residues(vars.public_inputs@)),
                    )).len() == post.len() - pre.len()
                &&& forall|c: int, rr: int|
                    0 <= c < post.len() - pre.len() && 0 <= rr < width ==> embed_m(
                        #[trigger] post[pre.len() + c]@[rr],
                    ) == self.spec_constraints(
                        vars.embedded_lane_local(rr),
                        vars.embedded_lane_next(rr),
                        embed_seq(row_residues(vars.public_inputs@)),
                    )[c]
            }),
    ;

    /// Evaluates the constraints at a single extension-field point: exactly
    /// the shared constraint family at these inputs.
    fn eval_ext(&self, vars: &StarkEvaluationVarsExt, yield_constr: &mut ConstraintConsumerExt)
        requires
            vars.local_values@.len() == self.spec_columns(),
            vars.next_values@.len() == self.spec_columns(),
            vars.public_inputs@.len() == self.spec_public_inputs(),
        ensures
            ({
                let pre = old(yield_constr).constraints@;
                let post = final(yield_constr).constraints@;
                let cs = self.spec_constraints(
                    ext_views(vars.local_values@),
                    ext_views(vars.next_values@),
                    ext_views(vars.public_inputs@),
                );
                &&& post.len() == pre.len() + cs.len()
                &&& post.subrange(0, pre.len() as int) == pre
                &&& forall|i: int|
                    0 <= i < cs.len() ==> (#[trigger] post[pre.len() + i])@ == cs[i]
            }),
    ;

    /// Emits the constraint evaluation into a recorder, for use inside a
    /// recursive circuit.
    fn eval_ext_recursively(
        &self,
        builder: &mut CircuitRecorder,
        vars: &StarkEvaluationTargets,
        yield_constr: &mut RecursiveConstraintConsumer,
    )
        requires
            old(builder).wf(),
            vars.local_values@.len() == self.spec_columns(),
            vars.next_values@.len() == self.spec_columns(),
            vars.public_inputs@.len() == self.spec_public_inputs(),
            forall|w: int|
                0 <= w < vars.local_values@.len() ==> ((#[trigger] vars.local_values@[w]) as int)
                    < old(builder).nodes@.len(),
            forall|w: int|
                0 <= w < vars.next_values@.len() ==> ((#[trigger] vars.next_values@[w]) as int)
                    < old(builder).nodes@.len(),
            forall|w: int|
                0 <= w < vars.public_inputs@.len() ==> ((#[trigger] vars.public_inputs@[w]) as int)
                    < old(builder).nodes@.len(),
        ensures
            final(builder).wf(),
            final(builder).num_inputs == old(builder).num_inputs,
            old(builder).nodes@.len() <= final(builder).nodes@.len(),
            final(builder).nodes@.subrange(0, old(builder).nodes@.len() as int) == old(
                builder,
            ).nodes@,
            ({
                let pre = old(yield_constr).constraints@;
                let post = final(yield_constr).constraints@;
                &&& post.len() >= pre.len()
                &&& post.subrange(0, pre.len() as int) == pre
                &&& forall|i: int|
                    pre.len() <= i < post.len() ==> ((#[trigger] post[i]) as int) < final(builder).nodes@.len()
                &&& forall|env: Seq<(int, int)>|
                    (#[trigger] self.spec_constraints(
                        recorded_wire_values(old(builder).nodes@, vars.local_values@, env),
                        recorded_wire_values(old(builder).nodes@, vars.next_values@, env),
                        recorded_wire_values(old(builder).nodes@, vars.public_inputs@, env),
                    )).len() == post.len() - pre.len()
                &&& forall|env: Seq<(int, int)>, i: int|
                    0 <= i < post.len() - pre.len() ==> #[trigger] node_value(
                        final(builder).nodes@,
                        env,
                        post[pre.len() + i] as int,
                    ) == self.spec_constraints(
                        recorded_wire_values(old(builder).nodes@, vars.local_values@, env),
                        recorded_wire_values(old(builder).nodes@, vars.next_values@, env),
                        recorded_wire_values(old(builder).nodes@, vars.public_inputs@, env),
                    )[i]
            }),
    ;

    /// The quotient polynomial's degree factor: one less than the constraint
    /// degree, and at least one.
    fn quotient_degree_factor(&self) -> (r: usize)
        ensures
            r as int == (if self.spec_constraint_degree() - 1 >= 1 {
                self.spec_constraint_degree() - 1
            } else {
                1int
            }),
    {
        let d = self.constraint_degree();
        if d >= 2 {
            d - 1
        } else {
            1
        }
    }

    fn uses_permutation_args(&self) -> (r: bool)
        ensures
            r == (self.spec_permutation_pairs().len() != 0),
    {
        let pairs = self.permutation_pairs();
        pairs.len() != 0
    }

    /// The number of permutation-argument instances combined into a single
    /// constraint.
    fn permutation_batch_size(&self) -> (r: usize)
        ensures
            r as int == (if self.spec_constraint_degree() - 1 >= 1 {
                self.spec_constraint_degree() - 1
            } else {
                1int
            }),
    {
        // The two sides of a permutation constraint each carry one product
        // term per batched instance, so the batch size is one less than the
        // constraint degree, which is the quotient degree factor.
        self.quotient_degree_factor()
    }

    fn num_permutation_instances(&self, config: &StarkConfig) -> (r: usize)
        requires
            self.spec_permutation_pairs().len() * config.num_challenges <= usize::MAX,
        ensures
            r as int == self.spec_permutation_pairs().len() * config.num_challenges,
    {
        let pairs = self.permutation_pairs();
        let n = pairs.len();
        proof {
            assert(n * config.num_challenges <= usize::MAX);
        }
        n * config.num_challenges
    }

    fn num_permutation_batches(&self, config: &StarkConfig) -> (r: usize)
        requires
            self.spec_permutation_pairs().len() * config.num_challenges + usize::MAX
                <= usize::MAX as int + usize::MAX as int,
            self.spec_permutation_pairs().len() * config.num_challenges <= usize::MAX,
        ensures
            r as int == ({
                let inst = self.spec_permutation_pairs().len() * config.num_challenges;
                let bs = if self.spec_constraint_degree() - 1 >= 1 {
                    self.spec_constraint_degree() - 1
                } else {
                    1int
                };
                (inst + bs - 1) / bs
            }),
    {
        let inst = self.num_permutation_instances(config);
        let bs = self.permutation_batch_size();
        ceil_div_usize(inst, bs)
    }

    /// Computes the low-degree-test instance used to prove this system: one
    /// unblinded oracle for the trace, one for the permutation polynomials
    /// when permutation arguments are used, and one for the quotient; the
    /// polynomials are opened at `zeta` and, trace and permutation parts
    /// only, at `zeta * g`.
    fn fri_instance(&self, zeta: QuadraticExtension, g: FieldElement, config: &StarkConfig) -> (r:
        FriInstanceInfo)
        requires
            self.spec_permutation_pairs().len() * config.num_challenges <= usize::MAX,
            (if self.spec_constraint_degree() - 1 >= 1 {
                self.spec_constraint_degree() - 1
            } else {
                1int
            }) * config.num_challenges <= usize::MAX,
        ensures
            ({
                let uses = self.spec_permutation_pairs().len() != 0;
                let cols = self.spec_columns();
                let perms = if uses {
                    let inst = self.spec_permutation_pairs().len() * config.num_challenges;
                    let bs = if self.spec_constraint_degree() - 1 >= 1 {
                        self.spec_constraint_degree() - 1
                    } else {
                        1int
                    };
                    (inst + bs - 1) / bs
                } else {
                    0int
                };
                let quots = (if self.spec_constraint_degree() - 1 >= 1 {
                    self.spec_constraint_degree() - 1
                } else {
                    1int
                }) * config.num_challenges;
                let quotient_oracle: usize = if uses {
                    2
                } else {
                    1
                };
                &&& r.oracles@.len() == (if uses {
                    3int
                } else {
                    2int
                })
                &&& forall|i: int|
                    0 <= i < r.oracles@.len() ==> #[trigger] r.oracles@[i] == (FriOracleInfo {
                        blinding: false,
                    })
                &&& r.batches@.len() == 2
                &&& r.batches@[0].point == zeta
                &&& r.batches@[0].polynomials@ == poly_info_range(0, 0, cols) + poly_info_range(
                    1,
                    0,
                    perms,
                ) + poly_info_range(quotient_oracle, 0, quots)
                &&& r.batches@[1].point@ == e_scalar_mul(zeta@, g@)
                &&& r.batches@[1].polynomials@ == poly_info_range(0, 0, cols) + poly_info_range(
                    1,
                    0,
                    perms,
                )
            }),
    {
        let no_blinding_oracle = FriOracleInfo { blinding: false };
        let num_cols = self.num_columns();
        let trace_info = FriPolynomialInfo::from_range(0, 0, num_cols);
        let uses = self.uses_permutation_args();
        let mut permutation_zs_info: Vec<FriPolynomialInfo> = Vec::new();
        let mut num_oracles: usize = 2;
        if uses {
            permutation_zs_info = FriPolynomialInfo::from_range(
                1,
                0,
                self.num_permutation_batches(config),
            );
            num_oracles = 3;
        }
        let quotient_oracle: usize = if uses {
            2
        } else {
            1
        };
        let quotient_count = self.quotient_degree_factor() * config.num_challenges;
        let quotient_info = FriPolynomialInfo::from_range(quotient_oracle, 0, quotient_count);

        let polys0 = concat_poly_infos(
            &concat_poly_infos(&trace_info, &permutation_zs_info),
            &quotient_info,
        );
        let zeta_batch = FriBatchInfo { point: zeta, polynomials: polys0 };
        let polys1 = concat_poly_infos(&trace_info, &permutation_zs_info);
        let zeta_right_batch = FriBatchInfo { point: zeta.scalar_mul(g), polynomials: polys1 };

        let mut oracles: Vec<FriOracleInfo> = Vec::new();
        for i in 0..num_oracles
            invariant
                oracles@.len() == i,
                forall|j: int|
                    0 <= j < i ==> #[trigger] oracles@[j] == (FriOracleInfo { blinding: false }),
        {
            oracles.push(FriOracleInfo { blinding: false });
        }
        let mut batches: Vec<FriBatchInfo> = Vec::new();
        batches.push(zeta_batch);
        batches.push(zeta_right_batch);
        FriInstanceInfo { oracles, batches }
    }

    /// Computes the low-degree-test instance in-circuit: the same layout as
    /// `fri_instance`, with the second opening point recorded as
    /// `zeta * g`.
    fn fri_instance_target(
        &self,
        builder: &mut CircuitRecorder,
        zeta: usize,
        g: FieldElement,
        config: &StarkConfig,
    ) -> (r: FriInstanceInfoTarget)
        requires
            old(builder).wf(),
            zeta < old(builder).nodes@.len(),
            self.spec_permutation_pairs().len() * config.num_challenges <= usize::MAX,
            (if self.spec_constraint_degree() - 1 >= 1 {
                self.spec_constraint_degree() - 1
            } else {
                1int
            }) * config.num_challenges <= usize::MAX,
        ensures
            final(builder).wf(),
            final(builder).num_inputs == old(builder).num_inputs,
            final(builder).nodes@ == old(builder).nodes@.push(
                crate::recorder::ExtNode::ScalarMul(g, zeta),
            ),
            ({
                let uses = self.spec_permutation_pairs().len() != 0;
                let cols = self.spec_columns();
                let perms = if uses {
                    let inst = self.spec_permutation_pairs().len() * config.num_challenges;
                    let bs = if self.spec_constraint_degree() - 1 >= 1 {
                        self.spec_constraint_degree() - 1
                    } else {
                        1int
                    };
                    (inst + bs - 1) / bs
                } else {
                    0int
                };
                let quots = (if self.spec_constraint_degree() - 1 >= 1 {
                    self.spec_constraint_degree() - 1
                } else {
                    1int
                }) * config.num_challenges;
                let quotient_oracle: usize = if uses {
                    2
                } else {
                    1
                };
                &&& r.oracles@.len() == (if uses {
                    3int
                } else {
                    2int
                })
                &&& forall|i: int|
                    0 <= i < r.oracles@.len() ==> #[trigger] r.oracles@[i] == (FriOracleInfo {
                        blinding: false,
                    })
                &&& r.batches@.len() == 2
                &&& r.batches@[0].point == zeta
                &&& r.batches@[0].polynomials@ == poly_info_range(0, 0, cols) + poly_info_range(
                    1,
                    0,
                    perms,
                ) + poly_info_range(quotient_oracle, 0, quots)
                &&& r.batches@[1].point == old(builder).nodes@.len()
                &&& forall|env: Seq<(int, int)>| #![all_triggers]
                    node_value(final(builder).nodes@, env, r.batches@[1].point as int)
                        == e_scalar_mul(node_value(final(builder).nodes@, env, zeta as int), g@)
                &&& r.batches@[1].polynomials@ == poly_info_range(0, 0, cols) + poly_info_range(
                    1,
                    0,
                    perms,
                )
            }),
    {
        let no_blinding_oracle = FriOracleInfo { blinding: false };
        let num_cols = self.num_columns();
        let trace_info = FriPolynomialInfo::from_range(0, 0, num_cols);
        let uses = self.uses_permutation_args();
        let mut permutation_zs_info: Vec<FriPolynomialInfo> = Vec::new();
        let mut num_oracles: usize = 2;
        if uses {
            permutation_zs_info = FriPolynomialInfo::from_range(
                1,
                0,
                self.num_permutation_batches(config),
            );
            num_oracles = 3;
        }
        let quotient_oracle: usize = if uses {
            2
        } else {
            1
        };
        let quotient_count = self.quotient_degree_factor() * config.num_challenges;
        let quotient_info = FriPolynomialInfo::from_range(quotient_oracle, 0, quotient_count);

        let polys0 = concat_poly_infos(
            &concat_poly_infos(&trace_info, &permutation_zs_info),
            &quotient_info,
        );
        let zeta_batch = FriBatchInfoTarget { point: zeta, polynomials: polys0 };
        let zeta_right = builder.mul_const_extension(g, zeta);
        let polys1 = concat_poly_infos(&trace_info, &permutation_zs_info);
        let zeta_right_batch = FriBatchInfoTarget { point: zeta_right, polynomials: polys1 };

        let mut oracles: Vec<FriOracleInfo> = Vec::new();
        for i in 0..num_oracles
            invariant
                oracles@.len() == i,
                forall|j: int|
                    0 <= j < i ==> #[trigger] oracles@[j] == (FriOracleInfo { blinding: false }),
        {
            oracles.push(FriOracleInfo { blinding: false });
        }
        let mut batches: Vec<FriBatchInfoTarget> = Vec::new();
        batches.push(zeta_batch);
        batches.push(zeta_right_batch);
        FriInstanceInfoTarget { oracles, batches }
    }
}


/// A minimal system over one column: each next value must be the square of
/// the local value, `local * local - next`.
pub struct SquareTransitionStark {}

impl Stark for SquareTransitionStark {
    open spec fn spec_columns(&self) -> int {
        1
    }

    open spec fn spec_public_inputs(&self) -> int {
        0
    }

    open spec fn spec_constraint_degree(&self) -> int {
        2
    }

    open spec fn spec_permutation_pairs(&self) -> Seq<PermutationPair> {
        Seq::empty()
    }

    fn num_columns(&self) -> (r: usize) {
        1
    }

    fn num_public_inputs(&self) -> (r: usize) {
        0
    }

    fn constraint_degree(&self) -> (r: usize) {
        2
    }

    fn permutation_pairs(&self) -> (v: Vec<PermutationPair>) {
        let v: Vec<PermutationPair> = Vec::new();
        proof {
            assert(v@ =~= Seq::<PermutationPair>::empty());
        }
        v
    }

    open spec fn spec_constraints(
        &self,
        local_values: Seq<(int, int)>,
        next_values: Seq<(int, int)>,
        public_inputs: Seq<(int, int)>,
    ) -> Seq<(int, int)> {
        seq![e_sub(e_mul(local_values[0], local_values[0]), next_values[0])]
    }

    fn eval_packed_base(&self, vars: &StarkEvaluationVars, yield_constr: &mut ConstraintConsumer) {
        let local = &vars.local_values[0];
        let next = &vars.next_values[0];
        let c = local.mul(local).sub(next);
        let ghost pre = yield_constr.constraints@;
        yield_constr.constraint(c);
        proof {
            assert(yield_constr.constraints@.subrange(0, pre.len() as int) =~= pre);
            assert forall|rr: int|
                0 <= rr < vars.width() implies embed_m(
                #[trigger] yield_constr.constraints@[pre.len() as int]@[rr],
            ) == self.spec_constraints(
                vars.embedded_lane_local(rr),
                vars.embedded_lane_next(rr),
                embed_seq(row_residues(vars.public_inputs@)),
            )[0] by {
                let lv = vars.local_values@[0]@[rr];
                let nv = vars.next_values@[0]@[rr];
                assert(lv == vars.local_values@[0].lanes@[rr]@);
                assert(nv == vars.next_values@[0].lanes@[rr]@);
                vars.local_values@[0].lanes@[rr].lemma_view_range();
                vars.next_values@[0].lanes@[rr].lemma_view_range();
                crate::extension::lemma_embed_mul(lv, lv);
                crate::constraints::lemma_mul_m_range(lv, lv);
                crate::extension::lemma_embed_sub(crate::field::mul_m(lv, lv), nv);
                assert(vars.embedded_lane_local(rr)[0] == embed_m(lv));
                assert(vars.embedded_lane_next(rr)[0] == embed_m(nv));
            }
        }
    }

    fn eval_ext(&self, vars: &StarkEvaluationVarsExt, yield_constr: &mut ConstraintConsumerExt) {
        let local = vars.local_values[0];
        let next = vars.next_values[0];
        let ghost pre = yield_constr.constraints@;
        yield_constr.constraint(local.mul(local).sub(next));
        proof {
            assert(yield_constr.constraints@.subrange(0, pre.len() as int) =~= pre);
            assert(ext_views(vars.local_values@)[0] == vars.local_values@[0]@);
            assert(ext_views(vars.next_values@)[0] == vars.next_values@[0]@);
        }
    }

    fn eval_ext_recursively(
        &self,
        builder: &mut CircuitRecorder,
        vars: &StarkEvaluationTargets,
        yield_constr: &mut RecursiveConstraintConsumer,
    ) {
        let local = vars.local_values[0];
        let next = vars.next_values[0];
        proof {
            assert((vars.local_values@[0] as int) < old(builder).nodes@.len());
            assert((vars.next_values@[0] as int) < old(builder).nodes@.len());
        }
        let c = builder.mul_sub_extension(local, local, next);
        let ghost pre = yield_constr.constraints@;
        yield_constr.constraint(c);
        proof {
            assert(yield_constr.constraints@.subrange(0, pre.len() as int) =~= pre);
            assert forall|env: Seq<(int, int)>, i: int|
                0 <= i < yield_constr.constraints@.len() - pre.len() implies #[trigger] node_value(
                builder.nodes@,
                env,
                yield_constr.constraints@[pre.len() + i] as int,
            ) == self.spec_constraints(
                recorded_wire_values(old(builder).nodes@, vars.local_values@, env),
                recorded_wire_values(old(builder).nodes@, vars.next_values@, env),
                recorded_wire_values(old(builder).nodes@, vars.public_inputs@, env),
            )[i] by {
                crate::recorder::lemma_node_value_prefix(
                    old(builder).nodes@,
                    builder.nodes@,
                    env,
                    local as int,
                );
                crate::recorder::lemma_node_value_prefix(
                    old(builder).nodes@,
                    builder.nodes@,
                    env,
                    next as int,
                );
                assert(recorded_wire_values(old(builder).nodes@, vars.local_values@, env)[0]
                    == node_value(old(builder).nodes@, env, local as int));
                assert(recorded_wire_values(old(builder).nodes@, vars.next_values@, env)[0]
                    == node_value(old(builder).nodes@, env, next as int));
            }
        }
    }
}

/// The least integer at least `a / b`.
pub fn ceil_div_usize(a: usize, b: usize) -> (r: usize)
    requires
        b >= 1,
    ensures
        r as int == (a + b - 1) / (b as int),
{
    let q = a / b;
    let rem = a % b;
    if rem == 0 {
        proof {
            vstd::arithmetic::div_mod::lemma_fundamental_div_mod(a as int, b as int);
            assert((q as int) * (b as int) == (b as int) * (q as int)) by (nonlinear_arith);
            vstd::arithmetic::div_mod::lemma_fundamental_div_mod_converse(
                a + b - 1,
                b as int,
                q as int,
                (b - 1) as int,
            );
        }
        q
    } else {
        proof {
            vstd::arithmetic::div_mod::lemma_fundamental_div_mod(a as int, b as int);
            assert((q as int + 1) * (b as int) == (b as int) * (q as int) + b as int)
                by (nonlinear_arith);
            assert(q < usize::MAX) by (nonlinear_arith)
                requires
                    a as int == (b as int) * (q as int) + rem as int,
                    1 <= rem < b,
                    a <= usize::MAX,
            ;
            vstd::arithmetic::div_mod::lemma_fundamental_div_mod_converse(
                a + b - 1,
                b as int,
                q as int + 1,
                (rem - 1) as int,
            );
        }
        q + 1
    }
}

} // verus!
