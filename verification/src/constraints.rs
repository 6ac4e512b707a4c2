//! The constraint family of the random-access check, as spec functions over
//! residues: a boolean check per index bit, the doubled-and-added
//! reconstruction of the access index, and the pairwise fold that collapses a
//! list to the selected element. Each piece exists over the base field and
//! over the quadratic extension, and the two agree on embedded inputs.

use vstd::prelude::*;
use vstd::arithmetic::div_mod::{lemma_mod_bound, lemma_small_mod};
use crate::field::{add_m, mul_m, sub_m, FIELD_ORDER};
use crate::extension::{
    e_add, e_mul, e_sub, embed_m, lemma_embed_add, lemma_embed_mul, lemma_embed_sub,
    EXT_NONRESIDUE,
};

verus! {

/// Every entry is a canonical residue.
pub open spec fn all_canonical(s: Seq<int>) -> bool {
    forall|i: int| 0 <= i < s.len() ==> 0 <= #[trigger] s[i] < FIELD_ORDER as int
}

/// The embedding of a sequence of base residues into the extension.
pub open spec fn embed_seq(s: Seq<int>) -> Seq<(int, int)> {
    s.map_values(|x: int| embed_m(x))
}

pub proof fn lemma_add_m_range(a: int, b: int)
    ensures
        0 <= add_m(a, b) < FIELD_ORDER as int,
{
    lemma_mod_bound(a + b, FIELD_ORDER as int);
}

pub proof fn lemma_sub_m_range(a: int, b: int)
    ensures
        0 <= sub_m(a, b) < FIELD_ORDER as int,
{
    lemma_mod_bound(a - b, FIELD_ORDER as int);
}

pub proof fn lemma_mul_m_range(a: int, b: int)
    ensures
        0 <= mul_m(a, b) < FIELD_ORDER as int,
{
    lemma_mod_bound(a * b, FIELD_ORDER as int);
}

/// The boolean check `b * (b - 1)`: zero exactly when `b` is zero or one.
pub open spec fn bool_check_m(b: int) -> int {
    mul_m(b, sub_m(b, 1))
}

/// The extension-field boolean check.
pub open spec fn e_bool_check(b: (int, int)) -> (int, int) {
    e_mul(b, e_sub(b, (1int, 0int)))
}

/// The access index reconstructed from its little-endian bits by doubling
/// and adding, highest bit first.
pub open spec fn recon_m(bits: Seq<int>) -> int
    decreases bits.len(),
{
    if bits.len() == 0 {
        0
    } else {
        let r = recon_m(bits.skip(1));
        add_m(add_m(r, r), bits[0])
    }
}

/// The extension-field index reconstruction.
pub open spec fn e_recon(bits: Seq<(int, int)>) -> (int, int)
    decreases bits.len(),
{
    if bits.len() == 0 {
        (0int, 0int)
    } else {
        let r = e_recon(bits.skip(1));
        e_add(e_add(r, r), bits[0])
    }
}

/// Linear interpolation `x + b * (y - x)`: a multiplexer controlled by `b`.
pub open spec fn select_m(b: int, x: int, y: int) -> int {
    add_m(x, mul_m(b, sub_m(y, x)))
}

/// The extension-field multiplexer.
pub open spec fn e_select(b: (int, int), x: (int, int), y: (int, int)) -> (int, int) {
    e_add(x, e_mul(b, e_sub(y, x)))
}

/// One fold level: adjacent pairs combined by the multiplexer.
pub open spec fn fold_once_m(items: Seq<int>, b: int) -> Seq<int> {
    Seq::new((items.len() / 2) as nat, |i: int| select_m(b, items[2 * i], items[2 * i + 1]))
}

/// One extension-field fold level.
pub open spec fn e_fold_once(items: Seq<(int, int)>, b: (int, int)) -> Seq<(int, int)> {
    Seq::new((items.len() / 2) as nat, |i: int| e_select(b, items[2 * i], items[2 * i + 1]))
}

/// The full fold, one level per bit, lowest bit first.
pub open spec fn fold_all_m(items: Seq<int>, bits: Seq<int>) -> Seq<int>
    decreases bits.len(),
{
    if bits.len() == 0 {
        items
    } else {
        fold_all_m(fold_once_m(items, bits[0]), bits.skip(1))
    }
}

/// The full extension-field fold.
pub open spec fn e_fold_all(items: Seq<(int, int)>, bits: Seq<(int, int)>) -> Seq<(int, int)>
    decreases bits.len(),
{
    if bits.len() == 0 {
        items
    } else {
        e_fold_all(e_fold_once(items, bits[0]), bits.skip(1))
    }
}

/// Folding over one more bit at the end folds the previous result once more.
pub proof fn lemma_fold_all_push(items: Seq<int>, bits: Seq<int>, b: int)
    ensures
        fold_all_m(items, bits.push(b)) == fold_once_m(fold_all_m(items, bits), b),
    decreases bits.len(),
{
    reveal_with_fuel(fold_all_m, 2);
    if bits.len() == 0 {
        assert(bits.push(b)[0] == b);
        assert(bits.push(b).skip(1) =~= Seq::<int>::empty());
        assert(fold_all_m(items, bits.push(b)) == fold_all_m(
            fold_once_m(items, b),
            Seq::<int>::empty(),
        ));
    } else {
        assert(bits.push(b)[0] == bits[0]);
        assert(bits.push(b).skip(1) =~= bits.skip(1).push(b));
        lemma_fold_all_push(fold_once_m(items, bits[0]), bits.skip(1), b);
        assert(fold_all_m(items, bits.push(b)) == fold_all_m(
            fold_once_m(items, bits[0]),
            bits.skip(1).push(b),
        ));
        assert(fold_all_m(items, bits) == fold_all_m(fold_once_m(items, bits[0]), bits.skip(1)));
    }
}

/// The extension-field counterpart of `lemma_fold_all_push`.
pub proof fn lemma_e_fold_all_push(items: Seq<(int, int)>, bits: Seq<(int, int)>, b: (int, int))
    ensures
        e_fold_all(items, bits.push(b)) == e_fold_once(e_fold_all(items, bits), b),
    decreases bits.len(),
{
    reveal_with_fuel(e_fold_all, 2);
    if bits.len() == 0 {
        assert(bits.push(b)[0] == b);
        assert(bits.push(b).skip(1) =~= Seq::<(int, int)>::empty());
        assert(e_fold_all(items, bits.push(b)) == e_fold_all(
            e_fold_once(items, b),
            Seq::<(int, int)>::empty(),
        ));
    } else {
        assert(bits.push(b)[0] == bits[0]);
        assert(bits.push(b).skip(1) =~= bits.skip(1).push(b));
        lemma_e_fold_all_push(e_fold_once(items, bits[0]), bits.skip(1), b);
        assert(e_fold_all(items, bits.push(b)) == e_fold_all(
            e_fold_once(items, bits[0]),
            bits.skip(1).push(b),
        ));
        assert(e_fold_all(items, bits) == e_fold_all(e_fold_once(items, bits[0]), bits.skip(1)));
    }
}

/// The index reconstruction lands in canonical range.
pub proof fn lemma_recon_range(bits: Seq<int>)
    ensures
        0 <= recon_m(bits) < FIELD_ORDER as int,
    decreases bits.len(),
{
    if bits.len() == 0 {
    } else {
        let r = recon_m(bits.skip(1));
        lemma_add_m_range(add_m(r, r), bits[0]);
    }
}

/// The boolean check commutes with the embedding.
pub proof fn lemma_embed_bool_check(b: int)
    requires
        0 <= b < FIELD_ORDER as int,
    ensures
        e_bool_check(embed_m(b)) == embed_m(bool_check_m(b)),
{
    lemma_small_mod(1nat, FIELD_ORDER as nat);
    assert(embed_m(1) == (1int, 0int));
    lemma_embed_sub(b, 1);
    lemma_sub_m_range(b, 1);
    lemma_embed_mul(b, sub_m(b, 1));
}

/// The multiplexer commutes with the embedding.
pub proof fn lemma_embed_select(b: int, x: int, y: int)
    requires
        0 <= b < FIELD_ORDER as int,
        0 <= x < FIELD_ORDER as int,
        0 <= y < FIELD_ORDER as int,
    ensures
        e_select(embed_m(b), embed_m(x), embed_m(y)) == embed_m(select_m(b, x, y)),
{
    lemma_embed_sub(y, x);
    lemma_sub_m_range(y, x);
    lemma_embed_mul(b, sub_m(y, x));
    lemma_mul_m_range(b, sub_m(y, x));
    lemma_embed_add(x, mul_m(b, sub_m(y, x)));
}

/// The index reconstruction commutes with the embedding.
pub proof fn lemma_embed_recon(bits: Seq<int>)
    requires
        all_canonical(bits),
    ensures
        e_recon(embed_seq(bits)) == embed_m(recon_m(bits)),
    decreases bits.len(),
{
    if bits.len() == 0 {
        lemma_small_mod(0nat, FIELD_ORDER as nat);
        assert(embed_m(0) == (0int, 0int));
    } else {
        assert(embed_seq(bits).skip(1) =~= embed_seq(bits.skip(1)));
        assert(all_canonical(bits.skip(1))) by {
            assert(forall|i: int|
                0 <= i < bits.skip(1).len() ==> #[trigger] bits.skip(1)[i] == bits[i + 1]);
        }
        lemma_embed_recon(bits.skip(1));
        let r = recon_m(bits.skip(1));
        lemma_recon_range(bits.skip(1));
        lemma_embed_add(r, r);
        lemma_add_m_range(r, r);
        lemma_embed_add(add_m(r, r), bits[0]);
        assert(embed_seq(bits)[0] == embed_m(bits[0]));
    }
}

/// One fold level commutes with the embedding.
pub proof fn lemma_embed_fold_once(items: Seq<int>, b: int)
    requires
        all_canonical(items),
        0 <= b < FIELD_ORDER as int,
    ensures
        e_fold_once(embed_seq(items), embed_m(b)) == embed_seq(fold_once_m(items, b)),
{
    assert forall|i: int| 0 <= i < items.len() / 2 implies e_fold_once(embed_seq(items), embed_m(b))[i]
        == embed_seq(fold_once_m(items, b))[i] by {
        lemma_embed_select(b, items[2 * i], items[2 * i + 1]);
    }
    assert(e_fold_once(embed_seq(items), embed_m(b)) =~= embed_seq(fold_once_m(items, b)));
}

/// One fold level keeps entries canonical.
pub proof fn lemma_fold_once_canonical(items: Seq<int>, b: int)
    ensures
        all_canonical(fold_once_m(items, b)),
{
    assert forall|i: int|
        0 <= i < fold_once_m(items, b).len() implies 0 <= #[trigger] fold_once_m(items, b)[i]
        < FIELD_ORDER as int by {
        lemma_add_m_range(items[2 * i], mul_m(b, sub_m(items[2 * i + 1], items[2 * i])));
    }
}

/// Every fold level keeps all entries canonical.
pub proof fn lemma_fold_all_canonical(items: Seq<int>, bits: Seq<int>)
    requires
        all_canonical(items),
    ensures
        all_canonical(fold_all_m(items, bits)),
    decreases bits.len(),
{
    if bits.len() == 0 {
    } else {
        lemma_fold_once_canonical(items, bits[0]);
        lemma_fold_all_canonical(fold_once_m(items, bits[0]), bits.skip(1));
    }
}

/// Folding a list of length `2^k` over `k` bits leaves a single entry.
pub proof fn lemma_fold_all_singleton(items: Seq<int>, bits: Seq<int>)
    requires
        items.len() == vstd::arithmetic::power2::pow2(bits.len()),
    ensures
        fold_all_m(items, bits).len() == 1,
    decreases bits.len(),
{
    vstd::arithmetic::power2::lemma2_to64();
    if bits.len() == 0 {
    } else {
        vstd::arithmetic::power2::lemma_pow2_adds((bits.len() - 1) as nat, 1);
        lemma_fold_all_singleton(fold_once_m(items, bits[0]), bits.skip(1));
    }
}

/// The full fold commutes with the embedding.
pub proof fn lemma_embed_fold_all(items: Seq<int>, bits: Seq<int>)
    requires
        all_canonical(items),
        all_canonical(bits),
    ensures
        e_fold_all(embed_seq(items), embed_seq(bits)) == embed_seq(fold_all_m(items, bits)),
    decreases bits.len(),
{
    if bits.len() == 0 {
    } else {
        assert(embed_seq(bits).skip(1) =~= embed_seq(bits.skip(1)));
        assert(embed_seq(bits)[0] == embed_m(bits[0]));
        lemma_embed_fold_once(items, bits[0]);
        lemma_fold_once_canonical(items, bits[0]);
        assert(all_canonical(bits.skip(1))) by {
            assert(forall|i: int|
                0 <= i < bits.skip(1).len() ==> #[trigger] bits.skip(1)[i] == bits[i + 1]);
        }
        lemma_embed_fold_all(fold_once_m(items, bits[0]), bits.skip(1));
    }
}


/// Reducing the left operand first does not change a modular sum.
pub proof fn lemma_add_m_left(x: int, y: int)
    ensures
        add_m(x % (FIELD_ORDER as int), y) == add_m(x, y),
{
    let p = FIELD_ORDER as int;
    vstd::arithmetic::div_mod::lemma_add_mod_noop(x, y, p);
    vstd::arithmetic::div_mod::lemma_add_mod_noop(x % p, y, p);
    vstd::arithmetic::div_mod::lemma_mod_twice(x, p);
}

/// Reducing the left operand first does not change a modular difference.
pub proof fn lemma_sub_m_left(x: int, y: int)
    ensures
        sub_m(x % (FIELD_ORDER as int), y) == sub_m(x, y),
{
    let p = FIELD_ORDER as int;
    vstd::arithmetic::div_mod::lemma_sub_mod_noop(x, y, p);
    vstd::arithmetic::div_mod::lemma_sub_mod_noop(x % p, y, p);
    vstd::arithmetic::div_mod::lemma_mod_twice(x, p);
}

/// The difference of two distinct canonical residues is nonzero.
pub proof fn lemma_sub_m_nonzero(x: int, y: int)
    requires
        0 <= x < FIELD_ORDER as int,
        0 <= y < FIELD_ORDER as int,
        x != y,
    ensures
        sub_m(x, y) != 0,
{
    let p = FIELD_ORDER as int;
    if y <= x {
        lemma_small_mod((x - y) as nat, FIELD_ORDER as nat);
    } else {
        vstd::arithmetic::div_mod::lemma_mod_multiples_vanish(1int, x - y, p);
        lemma_small_mod((x - y + p) as nat, FIELD_ORDER as nat);
    }
}

/// The boolean check computed as `a * a - a` equals the one computed as
/// `a * (a - 1)`, over the extension.
pub proof fn lemma_bool_check_shape(a: (int, int))
    ensures
        e_sub(e_mul(a, a), a) == e_bool_check(a),
{
    let p = FIELD_ORDER as int;
    let a0 = a.0;
    let a1 = a.1;
    lemma_small_mod(1nat, FIELD_ORDER as nat);
    // First coefficient, via `a * (a - 1)`.
    vstd::arithmetic::div_mod::lemma_mul_mod_noop_right(a0, a0 - 1, p);
    vstd::arithmetic::div_mod::lemma_mul_mod_noop_right(a1, a1 - 0, p);
    vstd::arithmetic::div_mod::lemma_mul_mod_noop_right(7, a1 * a1, p);
    vstd::arithmetic::div_mod::lemma_add_mod_noop(a0 * (a0 - 1), 7 * (a1 * a1), p);
    assert(e_bool_check(a).0 == (a0 * (a0 - 1) + 7 * (a1 * a1)) % p);
    // First coefficient, via `a * a - a`.
    vstd::arithmetic::div_mod::lemma_add_mod_noop(a0 * a0, 7 * (a1 * a1), p);
    lemma_sub_m_left(a0 * a0 + 7 * (a1 * a1), a0);
    assert(e_sub(e_mul(a, a), a).0 == (a0 * a0 + 7 * (a1 * a1) - a0) % p);
    assert(a0 * (a0 - 1) == a0 * a0 - a0) by (nonlinear_arith);
    // Second coefficient, via `a * (a - 1)`.
    vstd::arithmetic::div_mod::lemma_mul_mod_noop_right(a0, a1, p);
    vstd::arithmetic::div_mod::lemma_mul_mod_noop_right(a1, a0 - 1, p);
    vstd::arithmetic::div_mod::lemma_add_mod_noop(a0 * a1, a1 * (a0 - 1), p);
    assert(e_bool_check(a).1 == (a0 * a1 + a1 * (a0 - 1)) % p);
    // Second coefficient, via `a * a - a`.
    vstd::arithmetic::div_mod::lemma_add_mod_noop(a0 * a1, a1 * a0, p);
    lemma_sub_m_left(a0 * a1 + a1 * a0, a1);
    assert(e_sub(e_mul(a, a), a).1 == (a0 * a1 + a1 * a0 - a1) % p);
    assert(a1 * (a0 - 1) == a1 * a0 - a1) by (nonlinear_arith);
}

/// Multiplying by the constant two equals adding a value to itself, over the
/// extension.
pub proof fn lemma_double_shape(a: (int, int))
    ensures
        e_mul(a, (2int, 0int)) == e_add(a, a),
{
    let p = FIELD_ORDER as int;
    let a0 = a.0;
    let a1 = a.1;
    lemma_small_mod(0nat, FIELD_ORDER as nat);
    assert(a1 * 0 == 0 && a0 * 0 == 0) by (nonlinear_arith);
    assert(mul_m(a1, 0) == 0 && mul_m(a0, 0) == 0);
    assert(mul_m(EXT_NONRESIDUE as int, 0) == 0);
    vstd::arithmetic::div_mod::lemma_mod_twice(a0 * 2, p);
    vstd::arithmetic::div_mod::lemma_mod_twice(a1 * 2, p);
    lemma_add_m_left(a1 * 2, 0);
    assert(e_mul(a, (2int, 0int)).0 == add_m(mul_m(a0, 2), 0));
    assert(add_m(mul_m(a0, 2), 0) == (a0 * 2) % p);
    assert(e_mul(a, (2int, 0int)).1 == add_m(0, mul_m(a1, 2)));
    assert(add_m(0, mul_m(a1, 2)) == (a1 * 2) % p);
    assert(a0 * 2 == a0 + a0 && a1 * 2 == a1 + a1) by (nonlinear_arith);
}

} // verus!
