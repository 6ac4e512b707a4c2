//! The batched base-field representation: one value per row ("lane"),
//! operated on lane-wise. This is the prover's performance path; its
//! mathematical content is the sequence of lane residues.

use vstd::prelude::*;
use crate::field::{add_m, mul_m, sub_m, FieldElement};

verus! {

/// The lane-`r` cross-section of a sequence of packed values.
pub open spec fn lane_of(s: Seq<PackedBase>, r: int) -> Seq<int> {
    Seq::new(s.len(), |k: int| s[k]@[r])
}

/// A vector of base-field values, one per lane.
#[derive(Clone, Debug)]
pub struct PackedBase {
    pub lanes: Vec<FieldElement>,
}

impl View for PackedBase {
    type V = Seq<int>;

    open spec fn view(&self) -> Seq<int> {
        Seq::new(self.lanes@.len(), |i: int| self.lanes@[i]@)
    }
}

impl PackedBase {
    pub fn zeros(width: usize) -> (r: Self)
        ensures
            r@.len() == width,
            forall|i: int| 0 <= i < width ==> r@[i] == 0,
    {
        let mut lanes: Vec<FieldElement> = Vec::new();
        for k in 0..width
            invariant
                lanes@.len() == k,
                forall|i: int| 0 <= i < k ==> lanes@[i]@ == 0,
        {
            lanes.push(FieldElement::zero());
        }
        PackedBase { lanes }
    }

    pub fn from_lanes(lanes: Vec<FieldElement>) -> (r: Self)
        ensures
            r@.len() == lanes@.len(),
            forall|i: int| 0 <= i < lanes@.len() ==> r@[i] == lanes@[i]@,
    {
        PackedBase { lanes }
    }

    pub fn width(&self) -> (r: usize)
        ensures
            r == self@.len(),
    {
        self.lanes.len()
    }

    pub fn lane(&self, i: usize) -> (r: FieldElement)
        requires
            i < self@.len(),
        ensures
            r@ == self@[i as int],
    {
        self.lanes[i]
    }

    pub fn add(&self, rhs: &Self) -> (r: Self)
        requires
            self@.len() == rhs@.len(),
        ensures
            r@.len() == self@.len(),
            forall|i: int| 0 <= i < r@.len() ==> r@[i] == add_m(self@[i], rhs@[i]),
    {
        let n = self.lanes.len();
        let mut lanes: Vec<FieldElement> = Vec::new();
        for k in 0..n
            invariant
                n == self@.len() && n == rhs@.len() && n == self.lanes@.len()
                    && n == rhs.lanes@.len(),
                lanes@.len() == k,
                forall|i: int| 0 <= i < k ==> lanes@[i]@ == add_m(self@[i], rhs@[i]),
        {
            lanes.push(self.lanes[k].add(rhs.lanes[k]));
        }
        PackedBase { lanes }
    }

    pub fn sub(&self, rhs: &Self) -> (r: Self)
        requires
            self@.len() == rhs@.len(),
        ensures
            r@.len() == self@.len(),
            forall|i: int| 0 <= i < r@.len() ==> r@[i] == sub_m(self@[i], rhs@[i]),
    {
        let n = self.lanes.len();
        let mut lanes: Vec<FieldElement> = Vec::new();
        for k in 0..n
            invariant
                n == self@.len() && n == rhs@.len() && n == self.lanes@.len()
                    && n == rhs.lanes@.len(),
                lanes@.len() == k,
                forall|i: int| 0 <= i < k ==> lanes@[i]@ == sub_m(self@[i], rhs@[i]),
        {
            lanes.push(self.lanes[k].sub(rhs.lanes[k]));
        }
        PackedBase { lanes }
    }

    pub fn mul(&self, rhs: &Self) -> (r: Self)
        requires
            self@.len() == rhs@.len(),
        ensures
            r@.len() == self@.len(),
            forall|i: int| 0 <= i < r@.len() ==> r@[i] == mul_m(self@[i], rhs@[i]),
    {
        let n = self.lanes.len();
        let mut lanes: Vec<FieldElement> = Vec::new();
        for k in 0..n
            invariant
                n == self@.len() && n == rhs@.len() && n == self.lanes@.len()
                    && n == rhs.lanes@.len(),
                lanes@.len() == k,
                forall|i: int| 0 <= i < k ==> lanes@[i]@ == mul_m(self@[i], rhs@[i]),
        {
            lanes.push(self.lanes[k].mul(rhs.lanes[k]));
        }
        PackedBase { lanes }
    }

    /// An owned copy with the same lanes.
    pub fn duplicate(&self) -> (r: Self)
        ensures
            r@ == self@,
    {
        let n = self.lanes.len();
        let mut lanes: Vec<FieldElement> = Vec::new();
        for k in 0..n
            invariant
                n == self.lanes@.len(),
                lanes@.len() == k,
                forall|i: int| 0 <= i < k ==> lanes@[i]@ == self@[i],
        {
            lanes.push(self.lanes[k]);
        }
        let r = PackedBase { lanes };
        proof {
            assert(r@ =~= self@);
        }
        r
    }

    pub fn sub_scalar(&self, rhs: FieldElement) -> (r: Self)
        ensures
            r@.len() == self@.len(),
            forall|i: int| 0 <= i < r@.len() ==> r@[i] == sub_m(self@[i], rhs@),
    {
        let n = self.lanes.len();
        let mut lanes: Vec<FieldElement> = Vec::new();
        for k in 0..n
            invariant
                n == self@.len() && n == self.lanes@.len(),
                lanes@.len() == k,
                forall|i: int| 0 <= i < k ==> lanes@[i]@ == sub_m(self@[i], rhs@),
        {
            lanes.push(self.lanes[k].sub(rhs));
        }
        PackedBase { lanes }
    }
}

} // verus!
