//! A concrete prime field of order `2^64 - 2^32 + 1`, the base of the
//! arithmetic used by gates and generators. Values are stored canonically
//! (below the order); the mathematical value of an element is its residue.

use vstd::prelude::*;
use vstd::arithmetic::div_mod::{
    lemma_add_mod_noop, lemma_mod_bound, lemma_mod_multiples_vanish, lemma_mul_mod_noop,
    lemma_mul_mod_noop_right, lemma_small_mod,
};
use vstd::arithmetic::power::{lemma_pow_mod_noop, lemma_pow_multiplies, lemma_square_is_pow2, pow};

verus! {

/// The order of the field.
pub const FIELD_ORDER: u64 = 0xFFFF_FFFF_0000_0001;

/// Sum of two residues, as a residue.
pub open spec fn add_m(a: int, b: int) -> int {
    (a + b) % (FIELD_ORDER as int)
}

/// Difference of two residues, as a residue.
pub open spec fn sub_m(a: int, b: int) -> int {
    (a - b) % (FIELD_ORDER as int)
}

/// Product of two residues, as a residue.
pub open spec fn mul_m(a: int, b: int) -> int {
    (a * b) % (FIELD_ORDER as int)
}

/// The multiplicative inverse used by this library: the residue raised to
/// `FIELD_ORDER - 2`.
pub open spec fn inv_m(a: int) -> int {
    pow(a, (FIELD_ORDER - 2) as nat) % (FIELD_ORDER as int)
}

/// An element of the field, held as a canonical 64-bit value.
#[derive(Clone, Copy, PartialEq, Eq, Hash, Debug, Structural)]
pub struct FieldElement {
    pub value: u64,
}

impl View for FieldElement {
    type V = int;

    open spec fn view(&self) -> int {
        (self.value as int) % (FIELD_ORDER as int)
    }
}

impl FieldElement {
    /// Every element's mathematical value lies below the field order.
    pub proof fn lemma_view_range(self)
        ensures
            0 <= self@ < FIELD_ORDER as int,
    {
        lemma_mod_bound(self.value as int, FIELD_ORDER as int);
    }

    pub fn zero() -> (r: Self)
        ensures
            r@ == 0,
            r.value == 0,
    {
        FieldElement { value: 0 }
    }

    pub fn one() -> (r: Self)
        ensures
            r@ == 1,
    {
        proof {
            lemma_small_mod(1nat, FIELD_ORDER as nat);
        }
        FieldElement { value: 1 }
    }

    pub fn two() -> (r: Self)
        ensures
            r@ == 2,
    {
        proof {
            lemma_small_mod(2nat, FIELD_ORDER as nat);
        }
        FieldElement { value: 2 }
    }

    pub fn from_canonical_u64(n: u64) -> (r: Self)
        requires
            n < FIELD_ORDER,
        ensures
            r@ == n as int,
    {
        proof {
            lemma_small_mod(n as nat, FIELD_ORDER as nat);
        }
        FieldElement { value: n }
    }

    /// Reduces an arbitrary 64-bit value into the field.
    pub fn from_noncanonical_u64(n: u64) -> (r: Self)
        ensures
            r@ == (n as int) % (FIELD_ORDER as int),
            r.value < FIELD_ORDER,
    {
        let v = n % FIELD_ORDER;
        proof {
            lemma_mod_bound(n as int, FIELD_ORDER as int);
            lemma_small_mod(v as nat, FIELD_ORDER as nat);
        }
        FieldElement { value: v }
    }

    pub fn from_canonical_u32(n: u32) -> (r: Self)
        ensures
            r@ == n as int,
    {
        proof {
            lemma_small_mod(n as nat, FIELD_ORDER as nat);
        }
        FieldElement { value: n as u64 }
    }

    pub fn from_canonical_usize(n: usize) -> (r: Self)
        requires
            n < FIELD_ORDER,
        ensures
            r@ == n as int,
    {
        proof {
            lemma_small_mod(n as nat, FIELD_ORDER as nat);
        }
        FieldElement { value: n as u64 }
    }

    pub fn from_bool(b: bool) -> (r: Self)
        ensures
            r@ == if b { 1int } else { 0int },
    {
        if b {
            Self::one()
        } else {
            Self::zero()
        }
    }

    pub fn to_canonical_u64(self) -> (r: u64)
        ensures
            r as int == self@,
    {
        self.value % FIELD_ORDER
    }

    pub fn is_zero(self) -> (r: bool)
        ensures
            r == (self@ == 0),
    {
        self.value % FIELD_ORDER == 0
    }

    pub fn add(self, rhs: Self) -> (r: Self)
        ensures
            r@ == add_m(self@, rhs@),
            r.value < FIELD_ORDER,
    {
        let s: u128 = self.value as u128 + rhs.value as u128;
        let m: u128 = s % (FIELD_ORDER as u128);
        proof {
            lemma_mod_bound(s as int, FIELD_ORDER as int);
            lemma_add_mod_noop(self.value as int, rhs.value as int, FIELD_ORDER as int);
            lemma_small_mod((s % (FIELD_ORDER as u128)) as nat, FIELD_ORDER as nat);
        }
        FieldElement { value: m as u64 }
    }

    pub fn double(self) -> (r: Self)
        ensures
            r@ == add_m(self@, self@),
    {
        self.add(self)
    }

    pub fn sub(self, rhs: Self) -> (r: Self)
        ensures
            r@ == sub_m(self@, rhs@),
            r.value < FIELD_ORDER,
    {
        let a = self.value % FIELD_ORDER;
        let b = rhs.value % FIELD_ORDER;
        let s: u128 = a as u128 + FIELD_ORDER as u128 - b as u128;
        let m: u128 = s % (FIELD_ORDER as u128);
        proof {
            lemma_mod_bound(s as int, FIELD_ORDER as int);
            lemma_mod_multiples_vanish(1int, a as int - b as int, FIELD_ORDER as int);
            lemma_small_mod((s % (FIELD_ORDER as u128)) as nat, FIELD_ORDER as nat);
        }
        FieldElement { value: m as u64 }
    }

    pub fn neg(self) -> (r: Self)
        ensures
            r@ == sub_m(0, self@),
    {
        Self::zero().sub(self)
    }

    pub fn mul(self, rhs: Self) -> (r: Self)
        ensures
            r@ == mul_m(self@, rhs@),
            r.value < FIELD_ORDER,
    {
        proof {
            assert((self.value as int) * (rhs.value as int)
                < 0x1_0000_0000_0000_0000_0000_0000_0000_0000) by (nonlinear_arith)
                requires
                    self.value < 0x1_0000_0000_0000_0000,
                    rhs.value < 0x1_0000_0000_0000_0000,
            ;
        }
        let s: u128 = self.value as u128 * rhs.value as u128;
        let m: u128 = s % (FIELD_ORDER as u128);
        proof {
            lemma_mod_bound(s as int, FIELD_ORDER as int);
            lemma_mul_mod_noop(self.value as int, rhs.value as int, FIELD_ORDER as int);
            lemma_small_mod((s % (FIELD_ORDER as u128)) as nat, FIELD_ORDER as nat);
        }
        FieldElement { value: m as u64 }
    }

    /// Raises the element to the given power by binary exponentiation.
    pub fn exp(self, e: u64) -> (r: Self)
        ensures
            r@ == pow(self@, e as nat) % (FIELD_ORDER as int),
        decreases e,
    {
        if e == 0 {
            assert(pow(self@, 0) == 1) by {
                vstd::arithmetic::power::lemma_pow0(self@);
            }
            Self::one()
        } else {
            let sq = self.mul(self);
            let h = sq.exp(e / 2);
            proof {
                lemma_square_is_pow2(self@);
                lemma_pow_mod_noop(self@ * self@, (e / 2) as nat, FIELD_ORDER as int);
                lemma_pow_multiplies(self@, 2, (e / 2) as nat);
                assert(h@ == pow(self@, (2 * (e / 2)) as nat) % (FIELD_ORDER as int));
            }
            if e % 2 == 1 {
                let r = self.mul(h);
                proof {
                    lemma_mul_mod_noop_right(
                        self@,
                        pow(self@, (2 * (e / 2)) as nat),
                        FIELD_ORDER as int,
                    );
                    assert(e == 2 * (e / 2) + 1);
                    vstd::arithmetic::power::lemma_pow_adds(self@, 1, (e - 1) as nat);
                    vstd::arithmetic::power::lemma_pow1(self@);
                    assert(self@ * pow(self@, (e - 1) as nat) == pow(self@, e as nat));
                }
                r
            } else {
                assert(e == 2 * (e / 2));
                h
            }
        }
    }

    /// The inverse of a nonzero element; zero is mapped to zero.
    pub fn inverse(self) -> (r: Self)
        ensures
            r@ == inv_m(self@),
    {
        self.exp(FIELD_ORDER - 2)
    }
}

/// Relies on `rand::random`: draws a value of the requested type from the
/// thread-local generator. Nothing is promised of the result.
pub assume_specification<T>[ rand::random::<T> ]() -> (r: T)
    where
        rand::distributions::Standard: rand::distributions::Distribution<T>,
;

impl FieldElement {
    /// A field element drawn from the thread-local random generator.
    pub fn sample() -> (r: Self)
        ensures
            r.value < FIELD_ORDER,
    {
        let n: u64 = rand::random();
        Self::from_noncanonical_u64(n)
    }
}

} // verus!
