//! Greatest common divisors, Bezout coefficients and modular inverses.

use vstd::arithmetic::div_mod::{
    lemma_fundamental_div_mod, lemma_mod_multiples_vanish, lemma_mul_mod_noop_right,
    lemma_small_mod,
};
use vstd::math::abs;
use vstd::prelude::*;

verus! {

/// The one failure of the arithmetic core: `a` has no inverse modulo `m`,
/// because the two share a factor.
#[derive(Debug, Clone, Copy, PartialEq, Eq, Structural)]
pub enum EcError {
    NoModularInverse { a: i128, m: i128 },
}

/// Greatest common divisor, by Euclid's recurrence.
pub open spec fn gcd(a: nat, b: nat) -> nat
    decreases b,
{
    if b == 0 {
        a
    } else {
        gcd(b, a % b)
    }
}

/// `x` is the inverse of `a` modulo `m`, taken in `[0, m)`.
pub open spec fn is_inverse_mod(a: int, m: int, x: int) -> bool {
    0 <= x < m && (a * x) % m == 1int % m
}

/// The inverse of `a` modulo `m` (unique in `[0, m)` when it exists).
pub open spec fn inverse_mod(a: int, m: int) -> int {
    choose|x: int| is_inverse_mod(a, m, x)
}

/// `p` is a prime number.
pub open spec fn is_prime(p: int) -> bool {
    p > 1 && forall|d: int| 1 < d < p ==> #[trigger] (p % d) != 0
}

/// Bezout's identity: `gcd(a, b)` is an integer combination of `a` and `b`.
pub proof fn lemma_bezout(a: nat, b: nat) -> (c: (int, int))
    ensures
        a * c.0 + b * c.1 == gcd(a, b),
    decreases b,
{
    if b == 0 {
        (1, 0)
    } else {
        let r = a % b;
        let q = a / b;
        let (x1, y1) = lemma_bezout(b, r);
        lemma_fundamental_div_mod(a as int, b as int);
        assert(a * y1 + b * (x1 - q * y1) == b * x1 + r * y1) by (nonlinear_arith)
            requires
                a == b * q + r,
        ;
        (y1, x1 - q * y1)
    }
}

/// `gcd(a, b)` is positive unless both arguments are zero.
pub proof fn lemma_gcd_positive(a: nat, b: nat)
    requires
        a > 0 || b > 0,
    ensures
        gcd(a, b) > 0,
    decreases b,
{
    if b > 0 {
        lemma_gcd_positive(b, a % b);
    }
}

/// `gcd(a, b)` divides both `a` and `b`.
pub proof fn lemma_gcd_divides(a: nat, b: nat)
    requires
        gcd(a, b) > 0,
    ensures
        a % gcd(a, b) == 0,
        b % gcd(a, b) == 0,
    decreases b,
{
    let g = gcd(a, b);
    if b == 0 {
        lemma_mod_multiples_vanish(1, 0, a as int);
        lemma_mod_multiples_vanish(0, 0, a as int);
    } else {
        let r = a % b;
        let q = a / b;
        lemma_gcd_divides(b, r);
        lemma_fundamental_div_mod(a as int, b as int);
        lemma_fundamental_div_mod(b as int, g as int);
        lemma_fundamental_div_mod(r as int, g as int);
        let k1 = b / g;
        let k2 = r / g;
        assert(a == g * (k1 * q + k2)) by (nonlinear_arith)
            requires
                a == b * q + r,
                b == g * k1,
                r == g * k2,
        ;
        lemma_mod_multiples_vanish((k1 * q + k2) as int, 0, g as int);
    }
}

/// A nonzero residue of a prime shares no factor with it.
pub proof fn lemma_gcd_with_prime(a: int, p: int)
    requires
        is_prime(p),
        1 <= a < p,
    ensures
        gcd(a as nat, p as nat) == 1,
{
    let g = gcd(a as nat, p as nat);
    lemma_gcd_positive(a as nat, p as nat);
    lemma_gcd_divides(a as nat, p as nat);
    if g > p {
        lemma_small_mod(p as nat, g);
    } else if g == p {
        lemma_small_mod(a as nat, p as nat);
    } else if g > 1 {
        assert(p % (g as int) != 0);
    }
}

/// Two inverses of `a` modulo `m` in `[0, m)` are equal.
pub proof fn lemma_inverse_unique(a: int, m: int, x: int, y: int)
    requires
        m > 0,
        is_inverse_mod(a, m, x),
        is_inverse_mod(a, m, y),
    ensures
        x == y,
{
    lemma_mul_mod_noop_right(x, a * y, m);
    lemma_mul_mod_noop_right(y, a * x, m);
    lemma_mul_mod_noop_right(x, 1, m);
    lemma_mul_mod_noop_right(y, 1, m);
    assert(x * (a * y) == y * (a * x)) by (nonlinear_arith);
    lemma_small_mod(x as nat, m as nat);
    lemma_small_mod(y as nat, m as nat);
}

/// From Bezout coefficients `a·x + m·y == 1`, `x mod m` is the inverse of `a`.
proof fn lemma_inverse_from_bezout(a: int, m: int, x: int, y: int)
    requires
        m > 0,
        a * x + m * y == 1,
    ensures
        is_inverse_mod(a, m, x % m),
        inverse_mod(a, m) == x % m,
{
    lemma_mul_mod_noop_right(a, x, m);
    assert(a * x == m * (-y) + 1) by (nonlinear_arith)
        requires
            a * x + m * y == 1,
    ;
    lemma_mod_multiples_vanish(-y, 1, m);
    lemma_inverse_unique(a, m, x % m, inverse_mod(a, m));
}

/// Exactly when `gcd(a, m) == 1`, `a` has an inverse modulo `m`, and
/// `inverse_mod` picks it.
pub proof fn lemma_inverse_exists(a: nat, m: nat)
    requires
        m > 0,
        gcd(a, m) == 1,
    ensures
        is_inverse_mod(a as int, m as int, inverse_mod(a as int, m as int)),
{
    let (x, y) = lemma_bezout(a, m);
    lemma_inverse_from_bezout(a as int, m as int, x, y);
}

/// For a prime `p` and `a` in `[1, p)`, `gcd(a, p) == 1` and
/// `a · inverse_mod(a, p) ≡ 1 (mod p)`: the value that `mod_inverse(a, p)`
/// returns in `Ok` under its contract.
pub proof fn lemma_inverse_mod_prime(a: int, p: int)
    requires
        is_prime(p),
        1 <= a < p,
    ensures
        gcd(a as nat, p as nat) == 1,
        0 <= inverse_mod(a, p) < p,
        (a * inverse_mod(a, p)) % p == 1,
{
    lemma_gcd_with_prime(a, p);
    lemma_inverse_exists(a as nat, p as nat);
    lemma_small_mod(1, p as nat);
}

/// The bound on the Bezout coefficient that goes with `n`: `n`, or 1 when `n` is 0.
pub open spec fn coeff_bound(n: int) -> int {
    if n == 0 {
        1
    } else {
        n
    }
}

/// Integer division truncated toward zero, as `/` on signed machine integers.
pub open spec fn trunc_div(a: int, b: int) -> int {
    if (a < 0) == (b < 0) {
        (abs(a) / abs(b)) as int
    } else {
        -(abs(a) / abs(b))
    }
}

/// The remainder that goes with `trunc_div`; it takes the sign of `a`.
pub open spec fn trunc_rem(a: int, b: int) -> int {
    if a < 0 {
        -(abs(a) % abs(b))
    } else {
        (abs(a) % abs(b)) as int
    }
}

/// The extended Euclidean recursion: `(a, 1, 0)` for `b == 0`, and otherwise
/// `(g, y1, x1 − (a div b)·y1)` where `(g, x1, y1)` is the result for
/// `(b, a mod b)`, with truncating division.
pub open spec fn ext_gcd(a: int, b: int) -> (int, int, int)
    decreases abs(b),
{
    if b == 0 {
        (a, 1, 0)
    } else {
        let (g, x1, y1) = ext_gcd(b, trunc_rem(a, b));
        (g, y1, x1 - trunc_div(a, b) * y1)
    }
}

/// `a == b·trunc_div(a, b) + trunc_rem(a, b)`, with `|trunc_rem(a, b)| < |b|`.
pub proof fn lemma_trunc_div_rem(a: int, b: int)
    requires
        b != 0,
    ensures
        a == b * trunc_div(a, b) + trunc_rem(a, b),
        abs(trunc_rem(a, b)) == abs(a) % abs(b),
        abs(trunc_div(a, b)) * abs(b) <= abs(a),
        abs(a) == abs(b) * abs(trunc_div(a, b)) + abs(trunc_rem(a, b)),
{
    let q: int = (abs(a) / abs(b)) as int;
    let r: int = (abs(a) % abs(b)) as int;
    lemma_fundamental_div_mod(abs(a) as int, abs(b) as int);
    assert(abs(a) == abs(b) * q + r);
    assert(a == b * trunc_div(a, b) + trunc_rem(a, b)) by (nonlinear_arith)
        requires
            abs(a) == abs(b) * q + r,
            a >= 0 ==> abs(a) == a,
            a < 0 ==> abs(a) == -a,
            b >= 0 ==> abs(b) == b,
            b < 0 ==> abs(b) == -b,
            trunc_div(a, b) == (if (a < 0) == (b < 0) { q } else { -q }),
            trunc_rem(a, b) == (if a < 0 { -r } else { r }),
    ;
    assert(q * abs(b) <= abs(a)) by (nonlinear_arith)
        requires
            abs(a) == abs(b) * q + r,
            0 <= r,
    ;
}

/// For positive `a` and `b`, the coefficients of `ext_gcd(a, b) == (g, x, y)`
/// satisfy `|x| ≤ b / g` and `|y| ≤ a / g`, with `g == gcd(a, b) > 0`.
pub proof fn lemma_ext_gcd_bounds(a: int, b: int)
    requires
        a > 0,
        b > 0,
    ensures
        ext_gcd(a, b).0 == gcd(a as nat, b as nat),
        ext_gcd(a, b).0 > 0,
        abs(ext_gcd(a, b).1) * ext_gcd(a, b).0 <= b,
        abs(ext_gcd(a, b).2) * ext_gcd(a, b).0 <= a,
    decreases b,
{
    lemma_trunc_div_rem(a, b);
    let q = trunc_div(a, b);
    let r = trunc_rem(a, b);
    let (g, x1, y1) = ext_gcd(b, r);
    assert(q == a / b && r == a % b);
    lemma_small_mod(r as nat, b as nat);
    assert(gcd(a as nat, b as nat) == gcd(b as nat, r as nat));
    if r == 0 {
        assert(gcd(b as nat, 0) == b);
        assert(ext_gcd(b, 0) == (b, 1int, 0int));
        assert(q >= 1) by (nonlinear_arith)
            requires
                a == b * q,
                a > 0,
                b > 0,
        ;
        assert(1 * b <= a) by (nonlinear_arith)
            requires
                a == b * q,
                q >= 1,
                b > 0,
        ;
    } else {
        lemma_ext_gcd_bounds(b, r);
        let ax1 = abs(x1) as int;
        let ay1 = abs(y1) as int;
        assert(abs(x1 - q * y1) * g <= a) by (nonlinear_arith)
            requires
                ax1 * g <= r,
                ay1 * g <= b,
                ax1 == abs(x1),
                ay1 == abs(y1),
                q >= 0,
                g > 0,
                a == b * q + r,
        ;
    }
}

/// Truncating quotient and remainder, computed on magnitudes.
fn trunc_div_rem(a: i128, b: i128) -> (r: (i128, i128))
    requires
        a != i128::MIN,
        b != i128::MIN,
        b != 0,
    ensures
        r.0 == trunc_div(a as int, b as int),
        r.1 == trunc_rem(a as int, b as int),
{
    let ua: i128 = if a < 0 {
        -a
    } else {
        a
    };
    let ub: i128 = if b < 0 {
        -b
    } else {
        b
    };
    let q: i128 = ua / ub;
    let rem: i128 = ua % ub;
    proof {
        lemma_fundamental_div_mod(ua as int, ub as int);
        assert(q * ub <= ua) by (nonlinear_arith)
            requires
                ua == ub * q + rem,
                0 <= rem,
        ;
    }
    let quotient: i128 = if (a < 0) == (b < 0) {
        q
    } else {
        -q
    };
    let remainder: i128 = if a < 0 {
        -rem
    } else {
        rem
    };
    (quotient, remainder)
}

/// Extended Euclidean algorithm over signed integers: `(g, x, y)` as the
/// recursion `ext_gcd` gives it, with `a·x + b·y == g` and `|g| == gcd(|a|, |b|)`.
pub fn extended_euclidean_algorithm(a: i128, b: i128) -> (r: (i128, i128, i128))
    requires
        a != i128::MIN,
        b != i128::MIN,
    ensures
        (r.0 as int, r.1 as int, r.2 as int) == ext_gcd(a as int, b as int),
        abs(r.0 as int) == gcd(abs(a as int), abs(b as int)),
        a * r.1 + b * r.2 == r.0,
        -coeff_bound(abs(b as int) as int) <= r.1 <= coeff_bound(abs(b as int) as int),
        -coeff_bound(abs(a as int) as int) <= r.2 <= coeff_bound(abs(a as int) as int),
        b == 0 ==> r.2 == 0,
        a > 0 && b > 0 ==> r.0 > 0 && abs(r.1 as int) * r.0 <= b && abs(r.2 as int) * r.0 <= a,
    decreases abs(b as int),
{
    proof {
        if a > 0 && b > 0 {
            lemma_ext_gcd_bounds(a as int, b as int);
        }
    }
    if b == 0 {
        (a, 1, 0)
    } else {
        let (q, rem) = trunc_div_rem(a, b);
        let ghost ua: int = abs(a as int) as int;
        let ghost ub: int = abs(b as int) as int;
        let ghost qa: int = abs(q as int) as int;
        let ghost ra: int = abs(rem as int) as int;
        proof {
            lemma_trunc_div_rem(a as int, b as int);
            lemma_small_mod(ra as nat, ub as nat);
        }
        let (g, x1, y1) = extended_euclidean_algorithm(b, rem);
        assert(-ua <= q * y1 <= ua) by (nonlinear_arith)
            requires
                q == qa || q == -qa,
                0 <= qa,
                -ub <= y1 <= ub,
                qa * ub <= ua,
        ;
        assert(a * y1 + b * (x1 - q * y1) == b * x1 + rem * y1) by (nonlinear_arith)
            requires
                a == b * q + rem,
        ;
        if rem == 0 {
            assert(q * y1 == 0) by (nonlinear_arith)
                requires
                    y1 == 0,
            ;
        } else {
            assert(-ua <= x1 - q * y1 <= ua) by (nonlinear_arith)
                requires
                    -ra <= x1 <= ra,
                    q == qa || q == -qa,
                    0 <= qa,
                    -ub <= y1 <= ub,
                    ua == ub * qa + ra,
            ;
        }
        (g, y1, x1 - q * y1)
    }
}

/// Inverse of `a` modulo `m` in `[0, m)`; fails with `NoModularInverse` exactly
/// when `gcd(|a|, m) != 1`.
pub fn mod_inverse(a: i128, m: i128) -> (r: Result<i128, EcError>)
    requires
        a != i128::MIN,
        0 < m,
    ensures
        r == (if gcd(abs(a as int), m as nat) == 1 {
            Ok::<i128, EcError>(inverse_mod(a as int, m as int) as i128)
        } else {
            Err::<i128, EcError>(EcError::NoModularInverse { a, m })
        }),
        r is Ok ==> is_inverse_mod(a as int, m as int, r->Ok_0 as int),
{
    let (g, x, y) = extended_euclidean_algorithm(a, m);
    // the algorithm may end on -1 where `a` is negative: negate the coefficients
    let coeff: i128 = if g == 1 {
        x
    } else if g == -1 {
        -x
    } else {
        return Err(EcError::NoModularInverse { a, m });
    };
    assert(a * coeff + m * (if g == 1 { y as int } else { -y }) == 1) by (nonlinear_arith)
        requires
            a * x + m * y == g,
            g == 1 ==> coeff == x,
            g == -1 ==> coeff == -x,
            g == 1 || g == -1,
    ;
    // |coeff| <= m, so one added `m` makes it nonnegative
    let shifted: i128 = if coeff < 0 {
        coeff + m
    } else {
        coeff
    };
    let v: i128 = shifted % m;
    proof {
        lemma_mod_multiples_vanish(1, coeff as int, m as int);
        lemma_inverse_from_bezout(
            a as int,
            m as int,
            coeff as int,
            if g == 1 { y as int } else { -y },
        );
    }
    Ok(v)
}

} // verus!
