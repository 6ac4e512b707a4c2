//! The quadratic extension of the base field, adjoining a square root of 7.
//! Gates evaluate their constraints over this extension for out-of-domain
//! checks; a base-field value is embedded with a zero second coefficient.

use vstd::prelude::*;
use vstd::arithmetic::div_mod::{lemma_mod_bound, lemma_small_mod};
use crate::field::{add_m, mul_m, sub_m, FieldElement, FIELD_ORDER};

verus! {

/// The square of the adjoined element.
pub const EXT_NONRESIDUE: u64 = 7;

/// Sum of two extension values, coefficient-wise.
pub open spec fn e_add(a: (int, int), b: (int, int)) -> (int, int) {
    (add_m(a.0, b.0), add_m(a.1, b.1))
}

/// Difference of two extension values, coefficient-wise.
pub open spec fn e_sub(a: (int, int), b: (int, int)) -> (int, int) {
    (sub_m(a.0, b.0), sub_m(a.1, b.1))
}

/// Product of two extension values: `(a0 + a1 x)(b0 + b1 x)` with `x^2 = 7`.
pub open spec fn e_mul(a: (int, int), b: (int, int)) -> (int, int) {
    (
        add_m(mul_m(a.0, b.0), mul_m(EXT_NONRESIDUE as int, mul_m(a.1, b.1))),
        add_m(mul_m(a.0, b.1), mul_m(a.1, b.0)),
    )
}

/// Product by a base-field scalar, coefficient-wise.
pub open spec fn e_scalar_mul(a: (int, int), g: int) -> (int, int) {
    (mul_m(a.0, g), mul_m(a.1, g))
}

/// The embedding of a base-field residue into the extension.
pub open spec fn embed_m(a: int) -> (int, int) {
    (a % (FIELD_ORDER as int), 0)
}

/// An element of the quadratic extension field.
#[derive(Clone, Copy, PartialEq, Eq, Hash, Debug, Structural)]
pub struct QuadraticExtension {
    pub c0: FieldElement,
    pub c1: FieldElement,
}

impl View for QuadraticExtension {
    type V = (int, int);

    open spec fn view(&self) -> (int, int) {
        (self.c0@, self.c1@)
    }
}

impl QuadraticExtension {
    pub fn zero() -> (r: Self)
        ensures
            r@ == (0int, 0int),
    {
        QuadraticExtension { c0: FieldElement::zero(), c1: FieldElement::zero() }
    }

    pub fn one() -> (r: Self)
        ensures
            r@ == (1int, 0int),
    {
        QuadraticExtension { c0: FieldElement::one(), c1: FieldElement::zero() }
    }

    pub fn two() -> (r: Self)
        ensures
            r@ == (2int, 0int),
    {
        QuadraticExtension { c0: FieldElement::two(), c1: FieldElement::zero() }
    }

    /// Embeds a base-field element into the extension.
    pub fn from_base(a: FieldElement) -> (r: Self)
        ensures
            r@ == embed_m(a@),
            r@ == (a@, 0int),
    {
        proof {
            a.lemma_view_range();
            lemma_small_mod(a@ as nat, FIELD_ORDER as nat);
        }
        QuadraticExtension { c0: a, c1: FieldElement::zero() }
    }

    pub fn from_basefield_array(parts: [FieldElement; 2]) -> (r: Self)
        ensures
            r@ == (parts[0]@, parts[1]@),
    {
        QuadraticExtension { c0: parts[0], c1: parts[1] }
    }

    pub fn to_basefield_array(self) -> (r: [FieldElement; 2])
        ensures
            r[0]@ == self@.0,
            r[1]@ == self@.1,
    {
        [self.c0, self.c1]
    }

    pub fn add(self, rhs: Self) -> (r: Self)
        ensures
            r@ == e_add(self@, rhs@),
    {
        QuadraticExtension { c0: self.c0.add(rhs.c0), c1: self.c1.add(rhs.c1) }
    }

    pub fn double(self) -> (r: Self)
        ensures
            r@ == e_add(self@, self@),
    {
        self.add(self)
    }

    pub fn sub(self, rhs: Self) -> (r: Self)
        ensures
            r@ == e_sub(self@, rhs@),
    {
        QuadraticExtension { c0: self.c0.sub(rhs.c0), c1: self.c1.sub(rhs.c1) }
    }

    pub fn mul(self, rhs: Self) -> (r: Self)
        ensures
            r@ == e_mul(self@, rhs@),
    {
        let w = FieldElement::from_canonical_u64(EXT_NONRESIDUE);
        let c0 = self.c0.mul(rhs.c0).add(w.mul(self.c1.mul(rhs.c1)));
        let c1 = self.c0.mul(rhs.c1).add(self.c1.mul(rhs.c0));
        QuadraticExtension { c0, c1 }
    }

    /// Product by a base-field scalar.
    pub fn scalar_mul(self, g: FieldElement) -> (r: Self)
        ensures
            r@ == e_scalar_mul(self@, g@),
    {
        QuadraticExtension { c0: self.c0.mul(g), c1: self.c1.mul(g) }
    }

    pub fn is_zero(self) -> (r: bool)
        ensures
            r == (self@ == (0int, 0int)),
    {
        self.c0.is_zero() && self.c1.is_zero()
    }
}

/// Addition commutes with the embedding of the base field.
pub proof fn lemma_embed_add(a: int, b: int)
    requires
        0 <= a < FIELD_ORDER as int,
        0 <= b < FIELD_ORDER as int,
    ensures
        e_add(embed_m(a), embed_m(b)) == embed_m(add_m(a, b)),
{
    lemma_small_mod(a as nat, FIELD_ORDER as nat);
    lemma_small_mod(b as nat, FIELD_ORDER as nat);
    lemma_small_mod(0nat, FIELD_ORDER as nat);
    lemma_mod_bound(a + b, FIELD_ORDER as int);
    lemma_small_mod(add_m(a, b) as nat, FIELD_ORDER as nat);
}

/// Subtraction commutes with the embedding of the base field.
pub proof fn lemma_embed_sub(a: int, b: int)
    requires
        0 <= a < FIELD_ORDER as int,
        0 <= b < FIELD_ORDER as int,
    ensures
        e_sub(embed_m(a), embed_m(b)) == embed_m(sub_m(a, b)),
{
    lemma_small_mod(a as nat, FIELD_ORDER as nat);
    lemma_small_mod(b as nat, FIELD_ORDER as nat);
    lemma_small_mod(0nat, FIELD_ORDER as nat);
    lemma_mod_bound(a - b, FIELD_ORDER as int);
    lemma_small_mod(sub_m(a, b) as nat, FIELD_ORDER as nat);
}

/// Multiplication commutes with the embedding of the base field.
pub proof fn lemma_embed_mul(a: int, b: int)
    requires
        0 <= a < FIELD_ORDER as int,
        0 <= b < FIELD_ORDER as int,
    ensures
        e_mul(embed_m(a), embed_m(b)) == embed_m(mul_m(a, b)),
{
    lemma_small_mod(a as nat, FIELD_ORDER as nat);
    lemma_small_mod(b as nat, FIELD_ORDER as nat);
    lemma_small_mod(0nat, FIELD_ORDER as nat);
    lemma_mod_bound(a * b, FIELD_ORDER as int);
    lemma_small_mod(mul_m(a, b) as nat, FIELD_ORDER as nat);
    assert(mul_m(a, 0) == 0 && mul_m(0, b) == 0 && mul_m(EXT_NONRESIDUE as int, mul_m(0, 0))
        == 0);
    assert(e_mul(embed_m(a), embed_m(b)).0 == (mul_m(a, b) + 0) % (FIELD_ORDER as int));
    assert(e_mul(embed_m(a), embed_m(b)).1 == (0int + 0int) % (FIELD_ORDER as int));
}

} // verus!
