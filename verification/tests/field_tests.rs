use witness_engine::extension::QuadraticExtension;
use witness_engine::field::{FieldElement, FIELD_ORDER};

#[test]
fn field_add_wraps_at_order() {
    let a = FieldElement::from_canonical_u64(FIELD_ORDER - 1);
    let b = FieldElement::one();
    assert!(a.add(b).is_zero());
    let c = FieldElement::from_canonical_u64(3);
    let d = FieldElement::from_canonical_u64(4);
    assert_eq!(c.add(d).to_canonical_u64(), 7);
}

#[test]
fn field_sub_wraps_below_zero() {
    let z = FieldElement::zero();
    let one = FieldElement::one();
    assert_eq!(z.sub(one).to_canonical_u64(), FIELD_ORDER - 1);
    assert_eq!(one.neg().to_canonical_u64(), FIELD_ORDER - 1);
}

#[test]
fn field_mul_exact() {
    let c = FieldElement::from_canonical_u64(3);
    let d = FieldElement::from_canonical_u64(4);
    assert_eq!(c.mul(d).to_canonical_u64(), 12);
    let big = FieldElement::from_canonical_u64(FIELD_ORDER - 1);
    // (p - 1)^2 = p^2 - 2p + 1 = 1 mod p
    assert_eq!(big.mul(big).to_canonical_u64(), 1);
}

#[test]
fn field_exp_and_inverse() {
    let two = FieldElement::two();
    assert_eq!(two.exp(10).to_canonical_u64(), 1024);
    assert_eq!(two.exp(0).to_canonical_u64(), 1);
    let seven = FieldElement::from_canonical_u64(7);
    let inv = seven.inverse();
    assert_eq!(seven.mul(inv).to_canonical_u64(), 1);
    // Zero maps to zero under the inverse map.
    assert!(FieldElement::zero().inverse().is_zero());
}

#[test]
fn field_conversions() {
    assert_eq!(FieldElement::from_bool(true).to_canonical_u64(), 1);
    assert_eq!(FieldElement::from_bool(false).to_canonical_u64(), 0);
    assert_eq!(FieldElement::from_noncanonical_u64(FIELD_ORDER).to_canonical_u64(), 0);
    assert_eq!(
        FieldElement::from_noncanonical_u64(FIELD_ORDER + 5).to_canonical_u64(),
        5
    );
    assert_eq!(FieldElement::from_canonical_u32(77).to_canonical_u64(), 77);
    assert_eq!(FieldElement::from_canonical_usize(99).to_canonical_u64(), 99);
    let s = FieldElement::sample();
    assert!(s.value < FIELD_ORDER);
}

#[test]
fn extension_mul_exact() {
    // (2 + 3x)(4 + 5x) with x^2 = 7: 8 + 105 + (10 + 12)x = 113 + 22x.
    let a = QuadraticExtension {
        c0: FieldElement::from_canonical_u64(2),
        c1: FieldElement::from_canonical_u64(3),
    };
    let b = QuadraticExtension {
        c0: FieldElement::from_canonical_u64(4),
        c1: FieldElement::from_canonical_u64(5),
    };
    let p = a.mul(b);
    assert_eq!(p.c0.to_canonical_u64(), 113);
    assert_eq!(p.c1.to_canonical_u64(), 22);
}

#[test]
fn extension_embedding_and_ops() {
    let a = QuadraticExtension::from_base(FieldElement::from_canonical_u64(6));
    let b = QuadraticExtension::from_base(FieldElement::from_canonical_u64(2));
    let s = a.sub(b);
    assert_eq!(s.c0.to_canonical_u64(), 4);
    assert_eq!(s.c1.to_canonical_u64(), 0);
    let d = a.double();
    assert_eq!(d.c0.to_canonical_u64(), 12);
    let sm = a.scalar_mul(FieldElement::from_canonical_u64(5));
    assert_eq!(sm.c0.to_canonical_u64(), 30);
    assert!(QuadraticExtension::zero().is_zero());
    assert!(!QuadraticExtension::one().is_zero());
    let arr = a.to_basefield_array();
    assert_eq!(arr[0].to_canonical_u64(), 6);
    assert_eq!(arr[1].to_canonical_u64(), 0);
    let back = QuadraticExtension::from_basefield_array(arr);
    assert_eq!(back.c0.to_canonical_u64(), 6);
}
