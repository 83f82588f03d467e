//! Scalar multiplication `k·P` by right-to-left binary double-and-add.

use crate::curve::{add_spec, double_spec, point_addition, point_doubling, Curve, CurvePoint};
use crate::laws::lemma_double_add_total;
use crate::modular::EcError;
use vstd::prelude::*;

verus! {

/// Double-and-add from accumulator `acc` and running point `run`, taking the
/// bits of `k` from the least significant: a set bit adds `run` to `acc`, and
/// every bit doubles `run`. The first failure of a step is the result.
pub open spec fn double_add_from(c: Curve, acc: CurvePoint, run: CurvePoint, k: nat) -> Result<
    CurvePoint,
    EcError,
>
    decreases k,
{
    if k == 0 {
        Ok(acc)
    } else {
        let added = if k % 2 == 1 {
            add_spec(c, acc, run)
        } else {
            Ok(acc)
        };
        match added {
            Err(e) => Err(e),
            Ok(acc2) => match double_spec(c, run) {
                Err(e) => Err(e),
                Ok(run2) => double_add_from(c, acc2, run2, k / 2),
            },
        }
    }
}

/// `k·P`: double-and-add started from the identity.
pub open spec fn scalar_mul_spec(c: Curve, pt: CurvePoint, k: nat) -> Result<CurvePoint, EcError> {
    double_add_from(c, CurvePoint::Identity, pt, k)
}

/// `k·P` as `P` added `k` times to the identity, one point at a time.
pub open spec fn repeated_addition(c: Curve, pt: CurvePoint, k: nat) -> Result<CurvePoint, EcError>
    decreases k,
{
    if k == 0 {
        Ok(CurvePoint::Identity)
    } else {
        match repeated_addition(c, pt, (k - 1) as nat) {
            Err(e) => Err(e),
            Ok(sum) => add_spec(c, sum, pt),
        }
    }
}

/// `scalar·point_p` on `curve`, by double-and-add.
pub fn double_add_algorithm(point_p: CurvePoint, curve: &Curve, scalar: u128) -> (r: Result<
    CurvePoint,
    EcError,
>)
    requires
        curve.well_formed(),
        curve.holds_point(point_p),
    ensures
        r == scalar_mul_spec(*curve, point_p, scalar as nat),
        r is Ok ==> curve.holds_point(r->Ok_0),
        curve.odd_prime_field() ==> r is Ok,
{
    proof {
        if curve.odd_prime_field() {
            lemma_double_add_total(*curve, CurvePoint::Identity, point_p, scalar as nat);
        }
    }
    let mut point_q = point_p;
    let mut point_r = CurvePoint::Identity;
    let mut k: u128 = scalar;
    while k > 0
        invariant
            curve.well_formed(),
            curve.holds_point(point_q),
            curve.holds_point(point_r),
            double_add_from(*curve, point_r, point_q, k as nat) == scalar_mul_spec(
                *curve,
                point_p,
                scalar as nat,
            ),
        decreases k,
    {
        if k % 2 == 1 {
            point_r = match point_addition(&point_r, &point_q, curve) {
                Ok(v) => v,
                Err(e) => return Err(e),
            };
        }
        point_q = match point_doubling(&point_q, curve) {
            Ok(v) => v,
            Err(e) => return Err(e),
        };
        k = k / 2;
    }
    Ok(point_r)
}

} // verus!
