//! Points of a short Weierstrass curve `y² = x³ + a·x + b` over the integers
//! modulo `p`, and the group law on them.

use crate::laws::lemma_group_law_total;
use crate::modular::{gcd, inverse_mod, is_prime, mod_inverse, EcError};
use vstd::arithmetic::div_mod::{
    lemma_add_mod_noop, lemma_add_mod_noop_right, lemma_mod_multiples_vanish, lemma_mul_mod_noop_left,
    lemma_mul_mod_noop_right, lemma_small_mod,
};
use vstd::prelude::*;

verus! {

/// Moduli up to this bound keep every product of two residues within `u128`.
pub const MAX_MODULUS: u128 = 0x1_0000_0000_0000_0000;

/// Curve parameters: `y² ≡ x³ + a·x + b (mod p)`.
#[derive(Debug, Clone, Copy, PartialEq, Eq, Structural)]
pub struct Curve {
    pub a: u128,
    pub b: u128,
    pub p: u128,
}

/// A point of a curve: the identity (the point at infinity) or an affine
/// point with coordinates in `[0, p)`.
#[derive(Debug, Clone, Copy, PartialEq, Eq, Structural)]
pub enum CurvePoint {
    Identity,
    Affine { x: u128, y: u128 },
}

impl Curve {
    /// The modulus is small enough for the arithmetic to stay within `u128`.
    pub open spec fn well_formed(self) -> bool {
        self.p <= MAX_MODULUS
    }

    /// The modulus is an odd prime, where every operation succeeds.
    pub open spec fn odd_prime_field(self) -> bool {
        is_prime(self.p as int) && self.p % 2 == 1
    }

    /// The point's coordinates are residues modulo `p`.
    pub open spec fn holds_point(self, pt: CurvePoint) -> bool {
        match pt {
            CurvePoint::Identity => true,
            CurvePoint::Affine { x, y } => x < self.p && y < self.p,
        }
    }
}

/// The third intersection of the line of slope `s` through `(x1, y1)` and a
/// point of abscissa `x2`, reflected: `x3 = s² − x1 − x2`, `y3 = s·(x1 − x3) − y1`.
pub open spec fn chord_point(p: int, s: int, x1: int, y1: int, x2: int) -> CurvePoint {
    let x3 = (s * s - x1 - x2) % p;
    let y3 = (s * (x1 - x3) - y1) % p;
    CurvePoint::Affine { x: x3 as u128, y: y3 as u128 }
}

/// `2·P` by the tangent rule; the identity where the tangent is vertical.
pub open spec fn double_spec(c: Curve, pt: CurvePoint) -> Result<CurvePoint, EcError> {
    let p = c.p as int;
    match pt {
        CurvePoint::Identity => Ok(CurvePoint::Identity),
        CurvePoint::Affine { x, y } => {
            if y == 0 {
                Ok(CurvePoint::Identity)
            } else {
                let d = (2 * y) % p;
                if gcd(d as nat, p as nat) != 1 {
                    Err(EcError::NoModularInverse { a: d as i128, m: p as i128 })
                } else {
                    let s = ((3 * x * x + c.a) * inverse_mod(d, p)) % p;
                    Ok(chord_point(p, s, x as int, y as int, x as int))
                }
            }
        },
    }
}

/// `P + Q` by the chord rule, with the identity as neutral element, doubling
/// for `P == Q`, and the identity for two distinct points of equal abscissa.
pub open spec fn add_spec(c: Curve, pt1: CurvePoint, pt2: CurvePoint) -> Result<CurvePoint, EcError> {
    let p = c.p as int;
    match pt1 {
        CurvePoint::Identity => Ok(pt2),
        CurvePoint::Affine { x: x1, y: y1 } => match pt2 {
            CurvePoint::Identity => Ok(pt1),
            CurvePoint::Affine { x: x2, y: y2 } => {
                if x1 == x2 && y1 == y2 {
                    double_spec(c, pt1)
                } else if x1 == x2 {
                    Ok(CurvePoint::Identity)
                } else {
                    let d = (x2 - x1) % p;
                    if gcd(d as nat, p as nat) != 1 {
                        Err(EcError::NoModularInverse { a: d as i128, m: p as i128 })
                    } else {
                        let s = ((y2 - y1) * inverse_mod(d, p)) % p;
                        Ok(chord_point(p, s, x1 as int, y1 as int, x2 as int))
                    }
                }
            },
        },
    }
}

/// `(v + k·p) mod p == v mod p`, and the same after multiplying by `s`.
proof fn lemma_shift_mod(v: int, k: int, s: int, p: int)
    requires
        p > 0,
    ensures
        (v + k * p) % p == v % p,
        (s * (v + k * p)) % p == (s * v) % p,
{
    lemma_mod_multiples_vanish(k, v, p);
    assert(v + k * p == p * k + v) by (nonlinear_arith);
    assert(s * (v + k * p) == p * (s * k) + s * v) by (nonlinear_arith);
    lemma_mod_multiples_vanish(s * k, s * v, p);
}

fn chord_point_exec(p: u128, s: u128, x1: u128, y1: u128, x2: u128) -> (r: CurvePoint)
    requires
        0 < p <= MAX_MODULUS,
        s < p,
        x1 < p,
        y1 < p,
        x2 < p,
    ensures
        r == chord_point(p as int, s as int, x1 as int, y1 as int, x2 as int),
{
    let ghost pi = p as int;
    assert(s * s < MAX_MODULUS * MAX_MODULUS) by (nonlinear_arith)
        requires
            s < MAX_MODULUS,
    ;
    let x3: u128 = ((s * s) % p + (p - x1) + (p - x2)) % p;
    proof {
        lemma_add_mod_noop_right(2 * pi - x1 - x2, s * s, pi);
        lemma_shift_mod(s * s - x1 - x2, 2, 0, pi);
        assert(x3 == (s * s - x1 - x2) % pi);
    }
    let dx: u128 = (x1 + p - x3) % p;
    assert(s * dx < MAX_MODULUS * MAX_MODULUS) by (nonlinear_arith)
        requires
            s < MAX_MODULUS,
            dx < MAX_MODULUS,
    ;
    let y3: u128 = ((s * dx) % p + (p - y1)) % p;
    proof {
        lemma_mul_mod_noop_right(s as int, x1 + pi - x3, pi);
        lemma_shift_mod(x1 - x3, 1, s as int, pi);
        lemma_add_mod_noop_right(pi - y1, s * dx, pi);
        lemma_add_mod_noop_right(pi - y1, s * (x1 - x3), pi);
        lemma_shift_mod(s * (x1 - x3) - y1, 1, 0, pi);
        assert(y3 == (s * (x1 - x3) - y1) % pi);
    }
    CurvePoint::Affine { x: x3, y: y3 }
}

/// `2·P` on `curve`; fails only where `2·Py mod p` has no inverse modulo `p`.
pub fn point_doubling(point: &CurvePoint, curve: &Curve) -> (r: Result<CurvePoint, EcError>)
    requires
        curve.well_formed(),
        curve.holds_point(*point),
    ensures
        r == double_spec(*curve, *point),
        r is Ok ==> curve.holds_point(r->Ok_0),
        curve.odd_prime_field() ==> r is Ok,
{
    proof {
        if curve.odd_prime_field() {
            lemma_group_law_total(*curve, *point, *point);
        }
    }
    match *point {
        CurvePoint::Identity => Ok(CurvePoint::Identity),
        CurvePoint::Affine { x, y } => {
            if y == 0 {
                return Ok(CurvePoint::Identity);
            }
            let p = curve.p;
            let ghost pi = p as int;
            let d: u128 = (2 * y) % p;
            let inv = match mod_inverse(d as i128, p as i128) {
                Ok(v) => v as u128,
                Err(e) => return Err(e),
            };
            assert(x * x < MAX_MODULUS * MAX_MODULUS) by (nonlinear_arith)
                requires
                    x < MAX_MODULUS,
            ;
            let num: u128 = (3 * ((x * x) % p) + curve.a % p) % p;
            assert(num * inv < MAX_MODULUS * MAX_MODULUS) by (nonlinear_arith)
                requires
                    num < MAX_MODULUS,
                    inv < MAX_MODULUS,
            ;
            let s: u128 = (num * inv) % p;
            proof {
                let a = curve.a as int;
                lemma_mul_mod_noop_right(3, x * x, pi);
                lemma_add_mod_noop_right(3 * ((x * x) % pi), a, pi);
                lemma_add_mod_noop(3 * (x * x), a, pi);
                lemma_add_mod_noop(3 * ((x * x) % pi), a, pi);
                assert(3 * x * x == 3 * (x * x)) by (nonlinear_arith);
                assert(num == (3 * x * x + a) % pi);
                lemma_mul_mod_noop_left(3 * x * x + a, inv as int, pi);
            }
            Ok(chord_point_exec(p, s, x, y, x))
        },
    }
}

/// `P + Q` on `curve`; fails only where `(Qx − Px) mod p` has no inverse
/// modulo `p`, or, for `P == Q`, where doubling fails.
pub fn point_addition(point1: &CurvePoint, point2: &CurvePoint, curve: &Curve) -> (r: Result<
    CurvePoint,
    EcError,
>)
    requires
        curve.well_formed(),
        curve.holds_point(*point1),
        curve.holds_point(*point2),
    ensures
        r == add_spec(*curve, *point1, *point2),
        r is Ok ==> curve.holds_point(r->Ok_0),
        curve.odd_prime_field() ==> r is Ok,
{
    proof {
        if curve.odd_prime_field() {
            lemma_group_law_total(*curve, *point1, *point2);
        }
    }
    match *point1 {
        CurvePoint::Identity => Ok(*point2),
        CurvePoint::Affine { x: x1, y: y1 } => match *point2 {
            CurvePoint::Identity => Ok(*point1),
            CurvePoint::Affine { x: x2, y: y2 } => {
                if x1 == x2 && y1 == y2 {
                    return point_doubling(point1, curve);
                }
                if x1 == x2 {
                    // `Q` is the reflection of `P`: the chord is vertical
                    return Ok(CurvePoint::Identity);
                }
                let p = curve.p;
                let ghost pi = p as int;
                let d: u128 = (x2 + p - x1) % p;
                proof {
                    lemma_mod_multiples_vanish(1, x2 - x1, pi);
                }
                let inv = match mod_inverse(d as i128, p as i128) {
                    Ok(v) => v as u128,
                    Err(e) => return Err(e),
                };
                let dy: u128 = (y2 + p - y1) % p;
                assert(dy * inv < MAX_MODULUS * MAX_MODULUS) by (nonlinear_arith)
                    requires
                        dy < MAX_MODULUS,
                        inv < MAX_MODULUS,
                ;
                let s: u128 = (dy * inv) % p;
                proof {
                    lemma_mod_multiples_vanish(1, y2 - y1, pi);
                    lemma_mul_mod_noop_left(y2 + pi - y1, inv as int, pi);
                    lemma_mul_mod_noop_left(y2 - y1, inv as int, pi);
                }
                Ok(chord_point_exec(p, s, x1, y1, x2))
            },
        },
    }
}

} // verus!
