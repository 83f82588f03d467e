//! Algebraic facts about the group law and scalar multiplication.

use crate::curve::{add_spec, double_spec, Curve, CurvePoint};
use crate::modular::{lemma_gcd_with_prime, EcError};
use crate::scalar::{double_add_from, repeated_addition, scalar_mul_spec};
use vstd::arithmetic::div_mod::{lemma_mod_multiples_vanish, lemma_small_mod};
use vstd::prelude::*;

verus! {

/// The identity is neutral on both sides: `O + P == P` and `P + O == P`.
pub proof fn lemma_identity_laws(c: Curve, pt: CurvePoint)
    requires
        c.holds_point(pt),
    ensures
        add_spec(c, CurvePoint::Identity, pt) == Ok::<CurvePoint, EcError>(pt),
        add_spec(c, pt, CurvePoint::Identity) == Ok::<CurvePoint, EcError>(pt),
{
}

/// Adding a point to itself is doubling it: `P + P == 2·P`.
pub proof fn lemma_doubling_is_self_addition(c: Curve, pt: CurvePoint)
    requires
        c.holds_point(pt),
    ensures
        add_spec(c, pt, pt) == double_spec(c, pt),
{
}

/// A point plus its reflection `(x, p − y)` is the identity, for `y ≠ 0` and
/// `2·y ≠ p` (where the reflection would be the point itself).
pub proof fn lemma_reflection_sums_to_identity(c: Curve, x: u128, y: u128)
    requires
        c.holds_point(CurvePoint::Affine { x, y }),
        y != 0,
        2 * y != c.p,
    ensures
        add_spec(
            c,
            CurvePoint::Affine { x, y },
            CurvePoint::Affine { x, y: (c.p - y) as u128 },
        ) == Ok::<CurvePoint, EcError>(CurvePoint::Identity),
{
}

/// Over an odd prime field, doubling and addition of residue points never
/// fail, and give residue points.
pub proof fn lemma_group_law_total(c: Curve, pt1: CurvePoint, pt2: CurvePoint)
    requires
        c.well_formed(),
        c.odd_prime_field(),
        c.holds_point(pt1),
        c.holds_point(pt2),
    ensures
        double_spec(c, pt1) is Ok,
        c.holds_point(double_spec(c, pt1)->Ok_0),
        add_spec(c, pt1, pt2) is Ok,
        c.holds_point(add_spec(c, pt1, pt2)->Ok_0),
{
    let p = c.p as int;
    if let CurvePoint::Affine { x, y } = pt1 {
        if y != 0 {
            let d = (2 * y) % p;
            assert(1 <= d < p) by {
                if 2 * y >= p {
                    lemma_mod_multiples_vanish(-1, 2 * y, p);
                    lemma_small_mod((2 * y - p) as nat, p as nat);
                } else {
                    lemma_small_mod((2 * y) as nat, p as nat);
                }
            }
            lemma_gcd_with_prime(d, p);
        }
    }
    if let CurvePoint::Affine { x: x1, y: y1 } = pt1 {
        if let CurvePoint::Affine { x: x2, y: y2 } = pt2 {
            if x1 != x2 {
                let d = (x2 - x1) % p;
                assert(1 <= d < p) by {
                    if x2 < x1 {
                        lemma_mod_multiples_vanish(1, x2 - x1, p);
                        lemma_small_mod((x2 - x1 + p) as nat, p as nat);
                    } else {
                        lemma_small_mod((x2 - x1) as nat, p as nat);
                    }
                }
                lemma_gcd_with_prime(d, p);
            }
        }
    }
}

/// Over an odd prime field, double-and-add from residue points never fails
/// and gives a residue point.
pub proof fn lemma_double_add_total(c: Curve, acc: CurvePoint, run: CurvePoint, k: nat)
    requires
        c.well_formed(),
        c.odd_prime_field(),
        c.holds_point(acc),
        c.holds_point(run),
    ensures
        double_add_from(c, acc, run, k) is Ok,
        c.holds_point(double_add_from(c, acc, run, k)->Ok_0),
    decreases k,
{
    if k > 0 {
        lemma_group_law_total(c, acc, run);
        lemma_group_law_total(c, run, run);
        let acc2 = if k % 2 == 1 {
            add_spec(c, acc, run)->Ok_0
        } else {
            acc
        };
        lemma_double_add_total(c, acc2, double_spec(c, run)->Ok_0, k / 2);
    }
}

/// `0·P == O`, `1·P == P` and `2·P == double(P)`.
pub proof fn lemma_scalar_base_cases(c: Curve, pt: CurvePoint)
    requires
        c.well_formed(),
        c.odd_prime_field(),
        c.holds_point(pt),
    ensures
        scalar_mul_spec(c, pt, 0) == Ok::<CurvePoint, EcError>(CurvePoint::Identity),
        scalar_mul_spec(c, pt, 1) == Ok::<CurvePoint, EcError>(pt),
        scalar_mul_spec(c, pt, 2) == double_spec(c, pt),
{
    lemma_group_law_total(c, pt, pt);
    let q = double_spec(c, pt)->Ok_0;
    lemma_group_law_total(c, q, q);
    assert(double_add_from(c, q, double_spec(c, q)->Ok_0, 0) == Ok::<
        CurvePoint,
        EcError,
    >(q));
    assert(double_add_from(c, CurvePoint::Identity, q, 1) == Ok::<
        CurvePoint,
        EcError,
    >(q));
    assert(double_add_from(c, pt, q, 0) == Ok::<CurvePoint, EcError>(pt));
}

/// Double-and-add agrees with repeated addition for scalars up to 2.
pub proof fn lemma_double_add_is_repeated_addition_small(c: Curve, pt: CurvePoint, k: nat)
    requires
        c.well_formed(),
        c.odd_prime_field(),
        c.holds_point(pt),
        k <= 2,
    ensures
        scalar_mul_spec(c, pt, k) == repeated_addition(c, pt, k),
{
    lemma_scalar_base_cases(c, pt);
    assert(repeated_addition(c, pt, 0) == Ok::<CurvePoint, EcError>(CurvePoint::Identity));
    assert(repeated_addition(c, pt, 1) == Ok::<CurvePoint, EcError>(pt));
    assert(repeated_addition(c, pt, 2) == add_spec(c, pt, pt));
}

/// `(k1 + k2)·P == k1·P + k2·P` where one of the scalars is zero, or both are one.
pub proof fn lemma_scalar_sum_small_cases(c: Curve, pt: CurvePoint, k1: nat, k2: nat)
    requires
        c.well_formed(),
        c.odd_prime_field(),
        c.holds_point(pt),
        k1 == 0 || k2 == 0 || (k1 == 1 && k2 == 1),
    ensures
        scalar_mul_spec(c, pt, k1) is Ok,
        scalar_mul_spec(c, pt, k2) is Ok,
        scalar_mul_spec(c, pt, k1 + k2) == add_spec(
            c,
            scalar_mul_spec(c, pt, k1)->Ok_0,
            scalar_mul_spec(c, pt, k2)->Ok_0,
        ),
{
    lemma_scalar_base_cases(c, pt);
    lemma_double_add_total(c, CurvePoint::Identity, pt, k1);
    lemma_double_add_total(c, CurvePoint::Identity, pt, k2);
}

} // verus!
