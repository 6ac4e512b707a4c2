//! An extension-field circuit recorder: the in-circuit ("recursive")
//! evaluation mode emits its computation as a list of nodes, each an
//! arithmetic operation over earlier nodes, inputs or constants. The
//! recording has an evaluation semantics and a symbolic degree: inputs are
//! degree-one polynomials, constants degree zero, and products add degrees.

use vstd::prelude::*;
use crate::extension::{e_add, e_mul, e_scalar_mul, e_sub, QuadraticExtension};
use crate::field::FieldElement;

verus! {

/// One recorded operation. Operand fields name earlier nodes.
#[derive(Clone, Copy, Debug)]
pub enum ExtNode {
    /// The `k`-th input of the recording.
    Input(usize),
    Constant(QuadraticExtension),
    /// `a * b + c`.
    MulAdd(usize, usize, usize),
    /// `a * b - c`.
    MulSub(usize, usize, usize),
    /// `a - b`.
    Diff(usize, usize),
    /// `g * a`, by a base-field constant.
    ScalarMul(FieldElement, usize),
}

/// Node `i` refers only to inputs below `num_inputs` and nodes below `i`.
pub open spec fn node_wf(nodes: Seq<ExtNode>, num_inputs: int, i: int) -> bool {
    match nodes[i] {
        ExtNode::Input(k) => k < num_inputs,
        ExtNode::Constant(_) => true,
        ExtNode::MulAdd(a, b, c) => a < i && b < i && c < i,
        ExtNode::MulSub(a, b, c) => a < i && b < i && c < i,
        ExtNode::Diff(a, b) => a < i && b < i,
        ExtNode::ScalarMul(_, a) => a < i,
    }
}

/// The value of node `i` under an assignment of the inputs.
pub open spec fn node_value(nodes: Seq<ExtNode>, env: Seq<(int, int)>, i: int) -> (int, int)
    decreases i,
{
    if 0 <= i < nodes.len() {
        match nodes[i] {
            ExtNode::Input(k) => env[k as int],
            ExtNode::Constant(c) => c@,
            ExtNode::MulAdd(a, b, c) => if a < i && b < i && c < i {
                e_add(
                    e_mul(
                        node_value(nodes, env, a as int),
                        node_value(nodes, env, b as int),
                    ),
                    node_value(nodes, env, c as int),
                )
            } else {
                (0int, 0int)
            },
            ExtNode::MulSub(a, b, c) => if a < i && b < i && c < i {
                e_sub(
                    e_mul(
                        node_value(nodes, env, a as int),
                        node_value(nodes, env, b as int),
                    ),
                    node_value(nodes, env, c as int),
                )
            } else {
                (0int, 0int)
            },
            ExtNode::Diff(a, b) => if a < i && b < i {
                e_sub(node_value(nodes, env, a as int), node_value(nodes, env, b as int))
            } else {
                (0int, 0int)
            },
            ExtNode::ScalarMul(g, a) => if a < i {
                e_scalar_mul(node_value(nodes, env, a as int), g@)
            } else {
                (0int, 0int)
            },
        }
    } else {
        (0int, 0int)
    }
}

/// The symbolic degree of node `i`, as a polynomial in the inputs.
pub open spec fn node_degree(nodes: Seq<ExtNode>, i: int) -> int
    decreases i,
{
    if 0 <= i < nodes.len() {
        match nodes[i] {
            ExtNode::Input(_) => 1,
            ExtNode::Constant(_) => 0,
            ExtNode::MulAdd(a, b, c) => if a < i && b < i && c < i {
                let d = node_degree(nodes, a as int) + node_degree(nodes, b as int);
                let dc = node_degree(nodes, c as int);
                if d >= dc {
                    d
                } else {
                    dc
                }
            } else {
                0
            },
            ExtNode::MulSub(a, b, c) => if a < i && b < i && c < i {
                let d = node_degree(nodes, a as int) + node_degree(nodes, b as int);
                let dc = node_degree(nodes, c as int);
                if d >= dc {
                    d
                } else {
                    dc
                }
            } else {
                0
            },
            ExtNode::Diff(a, b) => if a < i && b < i {
                let da = node_degree(nodes, a as int);
                let db = node_degree(nodes, b as int);
                if da >= db {
                    da
                } else {
                    db
                }
            } else {
                0
            },
            ExtNode::ScalarMul(_, a) => if a < i {
                node_degree(nodes, a as int)
            } else {
                0
            },
        }
    } else {
        0
    }
}

/// A node's value is unchanged when later nodes are appended.
pub proof fn lemma_node_value_prefix(
    nodes: Seq<ExtNode>,
    bigger: Seq<ExtNode>,
    env: Seq<(int, int)>,
    i: int,
)
    requires
        nodes.len() <= bigger.len(),
        bigger.subrange(0, nodes.len() as int) == nodes,
        0 <= i < nodes.len(),
    ensures
        node_value(bigger, env, i) == node_value(nodes, env, i),
    decreases i,
{
    assert(bigger[i] == nodes[i]);
    match nodes[i] {
        ExtNode::Input(_) => {},
        ExtNode::Constant(_) => {},
        ExtNode::MulAdd(a, b, c) => {
            if a < i && b < i && c < i {
                lemma_node_value_prefix(nodes, bigger, env, a as int);
                lemma_node_value_prefix(nodes, bigger, env, b as int);
                lemma_node_value_prefix(nodes, bigger, env, c as int);
            }
        },
        ExtNode::MulSub(a, b, c) => {
            if a < i && b < i && c < i {
                lemma_node_value_prefix(nodes, bigger, env, a as int);
                lemma_node_value_prefix(nodes, bigger, env, b as int);
                lemma_node_value_prefix(nodes, bigger, env, c as int);
            }
        },
        ExtNode::Diff(a, b) => {
            if a < i && b < i {
                lemma_node_value_prefix(nodes, bigger, env, a as int);
                lemma_node_value_prefix(nodes, bigger, env, b as int);
            }
        },
        ExtNode::ScalarMul(_, a) => {
            if a < i {
                lemma_node_value_prefix(nodes, bigger, env, a as int);
            }
        },
    }
}

/// A node's degree is unchanged when later nodes are appended.
pub proof fn lemma_node_degree_prefix(nodes: Seq<ExtNode>, bigger: Seq<ExtNode>, i: int)
    requires
        nodes.len() <= bigger.len(),
        bigger.subrange(0, nodes.len() as int) == nodes,
        0 <= i < nodes.len(),
    ensures
        node_degree(bigger, i) == node_degree(nodes, i),
    decreases i,
{
    assert(bigger[i] == nodes[i]);
    match nodes[i] {
        ExtNode::Input(_) => {},
        ExtNode::Constant(_) => {},
        ExtNode::MulAdd(a, b, c) => {
            if a < i && b < i && c < i {
                lemma_node_degree_prefix(nodes, bigger, a as int);
                lemma_node_degree_prefix(nodes, bigger, b as int);
                lemma_node_degree_prefix(nodes, bigger, c as int);
            }
        },
        ExtNode::MulSub(a, b, c) => {
            if a < i && b < i && c < i {
                lemma_node_degree_prefix(nodes, bigger, a as int);
                lemma_node_degree_prefix(nodes, bigger, b as int);
                lemma_node_degree_prefix(nodes, bigger, c as int);
            }
        },
        ExtNode::Diff(a, b) => {
            if a < i && b < i {
                lemma_node_degree_prefix(nodes, bigger, a as int);
                lemma_node_degree_prefix(nodes, bigger, b as int);
            }
        },
        ExtNode::ScalarMul(_, a) => {
            if a < i {
                lemma_node_degree_prefix(nodes, bigger, a as int);
            }
        },
    }
}

/// Records an in-circuit computation over the extension field.
#[derive(Clone, Debug)]
pub struct CircuitRecorder {
    pub nodes: Vec<ExtNode>,
    pub num_inputs: usize,
}

impl CircuitRecorder {
    pub open spec fn wf(self) -> bool {
        forall|i: int|
            0 <= i < self.nodes@.len() ==> node_wf(self.nodes@, self.num_inputs as int, i)
    }

    pub fn new() -> (r: Self)
        ensures
            r.wf(),
            r.nodes@.len() == 0,
            r.num_inputs == 0,
    {
        CircuitRecorder { nodes: Vec::new(), num_inputs: 0 }
    }

    /// A fresh input node: a degree-one unknown of the recording.
    pub fn add_input(&mut self) -> (r: usize)
        requires
            old(self).wf(),
            old(self).num_inputs < usize::MAX,
        ensures
            final(self).wf(),
            final(self).nodes@ == old(self).nodes@.push(ExtNode::Input(old(self).num_inputs)),
            final(self).num_inputs == old(self).num_inputs + 1,
            r == old(self).nodes@.len(),
            node_degree(final(self).nodes@, r as int) == 1,
            forall|env: Seq<(int, int)>| #![all_triggers]
                node_value(final(self).nodes@, env, r as int) == env[old(
                    self,
                ).num_inputs as int],
    {
        let r = self.nodes.len();
        self.nodes.push(ExtNode::Input(self.num_inputs));
        self.num_inputs = self.num_inputs + 1;
        proof {
            assert forall|i: int|
                0 <= i < self.nodes@.len() implies node_wf(
                self.nodes@,
                self.num_inputs as int,
                i,
            ) by {
                if i < r as int {
                    assert(node_wf(old(self).nodes@, old(self).num_inputs as int, i));
                }
            }
        }
        r
    }

    pub fn constant_extension(&mut self, c: QuadraticExtension) -> (r: usize)
        requires
            old(self).wf(),
        ensures
            final(self).wf(),
            final(self).nodes@ == old(self).nodes@.push(ExtNode::Constant(c)),
            final(self).num_inputs == old(self).num_inputs,
            r == old(self).nodes@.len(),
            node_degree(final(self).nodes@, r as int) == 0,
            forall|env: Seq<(int, int)>| #![all_triggers]
                node_value(final(self).nodes@, env, r as int) == c@,
    {
        let r = self.nodes.len();
        self.nodes.push(ExtNode::Constant(c));
        proof {
            assert forall|i: int|
                0 <= i < self.nodes@.len() implies node_wf(
                self.nodes@,
                self.num_inputs as int,
                i,
            ) by {
                if i < r as int {
                    assert(node_wf(old(self).nodes@, old(self).num_inputs as int, i));
                }
            }
        }
        r
    }

    pub fn zero_extension(&mut self) -> (r: usize)
        requires
            old(self).wf(),
        ensures
            final(self).wf(),
            final(self).num_inputs == old(self).num_inputs,
            final(self).nodes@.len() == old(self).nodes@.len() + 1,
            final(self).nodes@.subrange(0, old(self).nodes@.len() as int) == old(self).nodes@,
            r == old(self).nodes@.len(),
            node_degree(final(self).nodes@, r as int) == 0,
            forall|env: Seq<(int, int)>| #![all_triggers]
                node_value(final(self).nodes@, env, r as int) == (0int, 0int),
    {
        let z = QuadraticExtension::zero();
        let r = self.constant_extension(z);
        proof {
            assert(self.nodes@.subrange(0, old(self).nodes@.len() as int) =~= old(self).nodes@);
        }
        r
    }

    pub fn two_extension(&mut self) -> (r: usize)
        requires
            old(self).wf(),
        ensures
            final(self).wf(),
            final(self).num_inputs == old(self).num_inputs,
            final(self).nodes@.len() == old(self).nodes@.len() + 1,
            final(self).nodes@.subrange(0, old(self).nodes@.len() as int) == old(self).nodes@,
            r == old(self).nodes@.len(),
            node_degree(final(self).nodes@, r as int) == 0,
            forall|env: Seq<(int, int)>| #![all_triggers]
                node_value(final(self).nodes@, env, r as int) == (2int, 0int),
    {
        let t = QuadraticExtension::two();
        let r = self.constant_extension(t);
        proof {
            assert(self.nodes@.subrange(0, old(self).nodes@.len() as int) =~= old(self).nodes@);
        }
        r
    }
}


impl CircuitRecorder {
    /// `a * b + c`.
    pub fn mul_add_extension(&mut self, a: usize, b: usize, c: usize) -> (r: usize)
        requires
            old(self).wf(),
            a < old(self).nodes@.len(),
            b < old(self).nodes@.len(),
            c < old(self).nodes@.len(),
        ensures
            final(self).wf(),
            final(self).num_inputs == old(self).num_inputs,
            final(self).nodes@ == old(self).nodes@.push(ExtNode::MulAdd(a, b, c)),
            final(self).nodes@.subrange(0, old(self).nodes@.len() as int) == old(self).nodes@,
            r == old(self).nodes@.len(),
            node_degree(final(self).nodes@, r as int) == ({
                let d = node_degree(final(self).nodes@, a as int) + node_degree(
                    final(self).nodes@,
                    b as int,
                );
                let dc = node_degree(final(self).nodes@, c as int);
                if d >= dc {
                    d
                } else {
                    dc
                }
            }),
            forall|env: Seq<(int, int)>| #![all_triggers]
                node_value(final(self).nodes@, env, r as int) == e_add(
                    e_mul(
                        node_value(final(self).nodes@, env, a as int),
                        node_value(final(self).nodes@, env, b as int),
                    ),
                    node_value(final(self).nodes@, env, c as int),
                ),
    {
        let r = self.nodes.len();
        self.nodes.push(ExtNode::MulAdd(a, b, c));
        proof {
            assert(self.nodes@.subrange(0, old(self).nodes@.len() as int) =~= old(self).nodes@);
            self.lemma_push_keeps_wf(*old(self));
        }
        r
    }

    /// `a * b - c`.
    pub fn mul_sub_extension(&mut self, a: usize, b: usize, c: usize) -> (r: usize)
        requires
            old(self).wf(),
            a < old(self).nodes@.len(),
            b < old(self).nodes@.len(),
            c < old(self).nodes@.len(),
        ensures
            final(self).wf(),
            final(self).num_inputs == old(self).num_inputs,
            final(self).nodes@ == old(self).nodes@.push(ExtNode::MulSub(a, b, c)),
            final(self).nodes@.subrange(0, old(self).nodes@.len() as int) == old(self).nodes@,
            r == old(self).nodes@.len(),
            node_degree(final(self).nodes@, r as int) == ({
                let d = node_degree(final(self).nodes@, a as int) + node_degree(
                    final(self).nodes@,
                    b as int,
                );
                let dc = node_degree(final(self).nodes@, c as int);
                if d >= dc {
                    d
                } else {
                    dc
                }
            }),
            forall|env: Seq<(int, int)>| #![all_triggers]
                node_value(final(self).nodes@, env, r as int) == e_sub(
                    e_mul(
                        node_value(final(self).nodes@, env, a as int),
                        node_value(final(self).nodes@, env, b as int),
                    ),
                    node_value(final(self).nodes@, env, c as int),
                ),
    {
        let r = self.nodes.len();
        self.nodes.push(ExtNode::MulSub(a, b, c));
        proof {
            assert(self.nodes@.subrange(0, old(self).nodes@.len() as int) =~= old(self).nodes@);
            self.lemma_push_keeps_wf(*old(self));
        }
        r
    }

    /// `a - b`.
    pub fn sub_extension(&mut self, a: usize, b: usize) -> (r: usize)
        requires
            old(self).wf(),
            a < old(self).nodes@.len(),
            b < old(self).nodes@.len(),
        ensures
            final(self).wf(),
            final(self).num_inputs == old(self).num_inputs,
            final(self).nodes@ == old(self).nodes@.push(ExtNode::Diff(a, b)),
            final(self).nodes@.subrange(0, old(self).nodes@.len() as int) == old(self).nodes@,
            r == old(self).nodes@.len(),
            node_degree(final(self).nodes@, r as int) == ({
                let da = node_degree(final(self).nodes@, a as int);
                let db = node_degree(final(self).nodes@, b as int);
                if da >= db {
                    da
                } else {
                    db
                }
            }),
            forall|env: Seq<(int, int)>| #![all_triggers]
                node_value(final(self).nodes@, env, r as int) == e_sub(
                    node_value(final(self).nodes@, env, a as int),
                    node_value(final(self).nodes@, env, b as int),
                ),
    {
        let r = self.nodes.len();
        self.nodes.push(ExtNode::Diff(a, b));
        proof {
            assert(self.nodes@.subrange(0, old(self).nodes@.len() as int) =~= old(self).nodes@);
            self.lemma_push_keeps_wf(*old(self));
        }
        r
    }

    /// `g * a`, by a base-field constant.
    pub fn mul_const_extension(&mut self, g: FieldElement, a: usize) -> (r: usize)
        requires
            old(self).wf(),
            a < old(self).nodes@.len(),
        ensures
            final(self).wf(),
            final(self).num_inputs == old(self).num_inputs,
            final(self).nodes@ == old(self).nodes@.push(ExtNode::ScalarMul(g, a)),
            final(self).nodes@.subrange(0, old(self).nodes@.len() as int) == old(self).nodes@,
            r == old(self).nodes@.len(),
            node_degree(final(self).nodes@, r as int) == node_degree(
                final(self).nodes@,
                a as int,
            ),
            forall|env: Seq<(int, int)>| #![all_triggers]
                node_value(final(self).nodes@, env, r as int) == e_scalar_mul(
                    node_value(final(self).nodes@, env, a as int),
                    g@,
                ),
    {
        let r = self.nodes.len();
        self.nodes.push(ExtNode::ScalarMul(g, a));
        proof {
            assert(self.nodes@.subrange(0, old(self).nodes@.len() as int) =~= old(self).nodes@);
            self.lemma_push_keeps_wf(*old(self));
        }
        r
    }

    /// A multiplexer: `if b { x } else { y }`, as `y + b * (x - y)`; sound
    /// for any `b`, selecting only when `b` is boolean.
    pub fn select_ext_generalized(&mut self, b: usize, x: usize, y: usize) -> (r: usize)
        requires
            old(self).wf(),
            b < old(self).nodes@.len(),
            x < old(self).nodes@.len(),
            y < old(self).nodes@.len(),
        ensures
            final(self).wf(),
            final(self).num_inputs == old(self).num_inputs,
            final(self).nodes@.len() == old(self).nodes@.len() + 2,
            final(self).nodes@.subrange(0, old(self).nodes@.len() as int) == old(self).nodes@,
            r == old(self).nodes@.len() + 1,
            node_degree(final(self).nodes@, r as int) == ({
                let db = node_degree(final(self).nodes@, b as int);
                let dx = node_degree(final(self).nodes@, x as int);
                let dy = node_degree(final(self).nodes@, y as int);
                let dd = if dx >= dy {
                    dx
                } else {
                    dy
                };
                if db + dd >= dy {
                    db + dd
                } else {
                    dy
                }
            }),
            forall|env: Seq<(int, int)>| #![all_triggers]
                node_value(final(self).nodes@, env, r as int) == crate::constraints::e_select(
                    node_value(final(self).nodes@, env, b as int),
                    node_value(final(self).nodes@, env, y as int),
                    node_value(final(self).nodes@, env, x as int),
                ),
    {
        let diff = self.sub_extension(x, y);
        let ghost mid = self.nodes@;
        let r = self.mul_add_extension(b, diff, y);
        proof {
            assert(self.nodes@.subrange(0, old(self).nodes@.len() as int) =~= old(self).nodes@);
            assert(mid.subrange(0, old(self).nodes@.len() as int) =~= old(self).nodes@);
            lemma_node_degree_prefix(mid, self.nodes@, b as int);
            lemma_node_degree_prefix(mid, self.nodes@, diff as int);
            lemma_node_degree_prefix(mid, self.nodes@, y as int);
            assert forall|env: Seq<(int, int)>| #![all_triggers]
                node_value(self.nodes@, env, r as int) == crate::constraints::e_select(
                    node_value(self.nodes@, env, b as int),
                    node_value(self.nodes@, env, y as int),
                    node_value(self.nodes@, env, x as int),
                ) by {
                lemma_node_value_prefix(mid, self.nodes@, env, diff as int);
            }
        }
        r
    }

    /// Appending one node whose references lie within the old recording
    /// keeps the recording well-formed.
    proof fn lemma_push_keeps_wf(self, pre: CircuitRecorder)
        requires
            pre.wf(),
            self.num_inputs == pre.num_inputs,
            self.nodes@.len() == pre.nodes@.len() + 1,
            self.nodes@.subrange(0, pre.nodes@.len() as int) == pre.nodes@,
            node_wf(self.nodes@, self.num_inputs as int, pre.nodes@.len() as int),
        ensures
            self.wf(),
    {
        assert forall|i: int|
            0 <= i < self.nodes@.len() implies node_wf(self.nodes@, self.num_inputs as int, i) by {
            if i < pre.nodes@.len() {
                assert(self.nodes@[i] == pre.nodes@[i]);
                assert(node_wf(pre.nodes@, pre.num_inputs as int, i));
            }
        }
    }

    /// Evaluates every node of the recording under the given input values.
    pub fn eval(&self, env: &Vec<QuadraticExtension>) -> (r: Vec<QuadraticExtension>)
        requires
            self.wf(),
            env@.len() == self.num_inputs,
        ensures
            r@.len() == self.nodes@.len(),
            forall|i: int|
                0 <= i < r@.len() ==> (#[trigger] r@[i])@ == node_value(
                    self.nodes@,
                    crate::gates::ext_views(env@),
                    i,
                ),
    {
        let ghost envv = crate::gates::ext_views(env@);
        let n = self.nodes.len();
        let mut vals: Vec<QuadraticExtension> = Vec::new();
        for i in 0..n
            invariant
                self.wf(),
                env@.len() == self.num_inputs,
                envv == crate::gates::ext_views(env@),
                n == self.nodes@.len(),
                vals@.len() == i,
                forall|j: int|
                    0 <= j < i ==> (#[trigger] vals@[j])@ == node_value(self.nodes@, envv, j),
        {
            proof {
                assert(node_wf(self.nodes@, self.num_inputs as int, i as int));
            }
            let v = match self.nodes[i] {
                ExtNode::Input(k) => env[k],
                ExtNode::Constant(c) => c,
                ExtNode::MulAdd(a, b, c) => vals[a].mul(vals[b]).add(vals[c]),
                ExtNode::MulSub(a, b, c) => vals[a].mul(vals[b]).sub(vals[c]),
                ExtNode::Diff(a, b) => vals[a].sub(vals[b]),
                ExtNode::ScalarMul(g, a) => vals[a].scalar_mul(g),
            };
            vals.push(v);
        }
        vals
    }
}



/// The values of a family of existing nodes, under every assignment, are
/// unchanged when later nodes are appended.
pub proof fn lemma_values_preserved(pre: Seq<ExtNode>, post: Seq<ExtNode>, ids: Seq<usize>)
    requires
        pre.len() <= post.len(),
        post.subrange(0, pre.len() as int) == pre,
        forall|j: int| 0 <= j < ids.len() ==> ((#[trigger] ids[j]) as int) < pre.len(),
    ensures
        forall|env: Seq<(int, int)>, j: int|
            0 <= j < ids.len() ==> #[trigger] node_value(post, env, ids[j] as int) == node_value(
                pre,
                env,
                ids[j] as int,
            ),
{
    assert forall|env: Seq<(int, int)>, j: int|
        0 <= j < ids.len() implies #[trigger] node_value(post, env, ids[j] as int) == node_value(
        pre,
        env,
        ids[j] as int,
    ) by {
        lemma_node_value_prefix(pre, post, env, ids[j] as int);
    }
}

/// Prefix preservation composes.
pub proof fn lemma_prefix_trans(a: Seq<ExtNode>, b: Seq<ExtNode>, c: Seq<ExtNode>)
    requires
        a.len() <= b.len(),
        b.len() <= c.len(),
        b.subrange(0, a.len() as int) == a,
        c.subrange(0, b.len() as int) == b,
    ensures
        c.subrange(0, a.len() as int) == a,
{
    assert forall|i: int| 0 <= i < a.len() implies c.subrange(0, a.len() as int)[i] == a[i] by {
        assert(c.subrange(0, b.len() as int)[i] == b[i]);
        assert(b.subrange(0, a.len() as int)[i] == a[i]);
    }
    assert(c.subrange(0, a.len() as int) =~= a);
}

/// A family of nodes bounded in degree stays bounded when later nodes are
/// appended.
pub proof fn lemma_degrees_le_preserved(
    pre: Seq<ExtNode>,
    post: Seq<ExtNode>,
    ids: Seq<usize>,
    bound: int,
)
    requires
        pre.len() <= post.len(),
        post.subrange(0, pre.len() as int) == pre,
        forall|j: int|
            0 <= j < ids.len() ==> ((#[trigger] ids[j]) as int) < pre.len() && node_degree(
                pre,
                ids[j] as int,
            ) <= bound,
    ensures
        forall|j: int|
            0 <= j < ids.len() ==> node_degree(post, (#[trigger] ids[j]) as int) <= bound,
{
    assert forall|j: int|
        0 <= j < ids.len() implies node_degree(post, (#[trigger] ids[j]) as int) <= bound by {
        lemma_node_degree_prefix(pre, post, ids[j] as int);
    }
}

} // verus!
