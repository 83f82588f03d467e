use ecc_double_add::curve::{point_addition, point_doubling, Curve, CurvePoint};
use ecc_double_add::digest::{decimal_bytes, digest_to_hex, hash_point};
use ecc_double_add::modular::{extended_euclidean_algorithm, mod_inverse, EcError};
use ecc_double_add::scalar::double_add_algorithm;

fn demo_curve() -> Curve {
    Curve { a: 497, b: 1768, p: 9739 }
}

fn base() -> CurvePoint {
    CurvePoint::Affine { x: 815, y: 3190 }
}

fn affine(x: u128, y: u128) -> CurvePoint {
    CurvePoint::Affine { x, y }
}

#[test]
fn extended_euclid_coefficients() {
    assert_eq!(extended_euclidean_algorithm(240, 46), (2, -9, 47));
    assert_eq!(extended_euclidean_algorithm(0, 5), (5, 0, 1));
    assert_eq!(extended_euclidean_algorithm(5, 0), (5, 1, 0));
    assert_eq!(extended_euclidean_algorithm(17, 9739), (1, -4583, 8));
    assert_eq!(extended_euclidean_algorithm(3, 5), (1, 2, -1));
    assert_eq!(extended_euclidean_algorithm(0, 0), (0, 1, 0));
}

#[test]
fn extended_euclid_signed_inputs() {
    assert_eq!(extended_euclidean_algorithm(-3, 0), (-3, 1, 0));
    assert_eq!(extended_euclidean_algorithm(-1, 5), (-1, 1, 0));
    assert_eq!(extended_euclidean_algorithm(-240, 46), (2, 9, 47));
    assert_eq!(extended_euclidean_algorithm(240, -46), (-2, 9, 47));
    assert_eq!(extended_euclidean_algorithm(-240, -46), (-2, -9, 47));
    assert_eq!(extended_euclidean_algorithm(-6, 9), (3, 1, 1));
}

#[test]
fn mod_inverse_negative_values() {
    assert_eq!(mod_inverse(-1, 5), Ok(4));
    assert_eq!(mod_inverse(-3, 7), Ok(2));
    assert_eq!(mod_inverse(-240, 7), Ok(3));
    assert_eq!(mod_inverse(-6, 9), Err(EcError::NoModularInverse { a: -6, m: 9 }));
}

#[test]
fn mod_inverse_values() {
    assert_eq!(mod_inverse(3, 7), Ok(5));
    assert_eq!(mod_inverse(10, 17), Ok(12));
    assert_eq!(mod_inverse(2, 9739), Ok(4870));
    assert_eq!(mod_inverse(5, 1), Ok(0));
}

#[test]
fn mod_inverse_prime_field_all_residues() {
    let p: i128 = 9739;
    for a in 1..p {
        let x = mod_inverse(a, p).unwrap();
        assert!(0 <= x && x < p);
        assert_eq!((a * x) % p, 1);
    }
}

#[test]
fn mod_inverse_fails_on_shared_factor() {
    assert_eq!(mod_inverse(2, 4), Err(EcError::NoModularInverse { a: 2, m: 4 }));
    assert_eq!(mod_inverse(0, 7), Err(EcError::NoModularInverse { a: 0, m: 7 }));
    assert_eq!(mod_inverse(6, 9), Err(EcError::NoModularInverse { a: 6, m: 9 }));
}

#[test]
fn identity_is_neutral() {
    let c = demo_curve();
    let id = CurvePoint::Identity;
    assert_eq!(point_addition(&id, &base(), &c), Ok(base()));
    assert_eq!(point_addition(&base(), &id, &c), Ok(base()));
    assert_eq!(point_addition(&id, &id, &c), Ok(id));
}

#[test]
fn doubling_matches_self_addition() {
    let c = demo_curve();
    assert_eq!(point_doubling(&base(), &c), Ok(affine(7302, 8128)));
    assert_eq!(point_addition(&base(), &base(), &c), point_doubling(&base(), &c));
    let q = affine(7985, 1441);
    assert_eq!(point_addition(&q, &q, &c), point_doubling(&q, &c));
}

#[test]
fn doubling_vertical_tangent_and_identity() {
    let c = demo_curve();
    assert_eq!(point_doubling(&affine(12, 0), &c), Ok(CurvePoint::Identity));
    assert_eq!(point_doubling(&CurvePoint::Identity, &c), Ok(CurvePoint::Identity));
}

#[test]
fn addition_of_distinct_points() {
    let c = demo_curve();
    assert_eq!(point_addition(&base(), &affine(100, 200), &c), Ok(affine(8761, 4308)));
    assert_eq!(point_addition(&affine(100, 200), &base(), &c), Ok(affine(8761, 4308)));
}

#[test]
fn reflection_sums_to_identity() {
    let c = demo_curve();
    let q = affine(815, 9739 - 3190);
    assert_eq!(point_addition(&base(), &q, &c), Ok(CurvePoint::Identity));
    assert_eq!(point_addition(&q, &base(), &c), Ok(CurvePoint::Identity));
}

#[test]
fn composite_modulus_errors() {
    let c = Curve { a: 0, b: 0, p: 9 };
    assert_eq!(
        point_doubling(&affine(1, 3), &c),
        Err(EcError::NoModularInverse { a: 6, m: 9 })
    );
    assert_eq!(
        point_addition(&affine(1, 1), &affine(4, 2), &c),
        Err(EcError::NoModularInverse { a: 3, m: 9 })
    );
    assert_eq!(
        double_add_algorithm(affine(1, 3), &c, 1),
        Err(EcError::NoModularInverse { a: 6, m: 9 })
    );
}

#[test]
fn scalar_base_cases() {
    let c = demo_curve();
    assert_eq!(double_add_algorithm(base(), &c, 0), Ok(CurvePoint::Identity));
    assert_eq!(double_add_algorithm(base(), &c, 1), Ok(base()));
    assert_eq!(double_add_algorithm(base(), &c, 2), point_doubling(&base(), &c));
    assert_eq!(double_add_algorithm(base(), &c, 3), Ok(affine(159, 8931)));
    assert_eq!(double_add_algorithm(base(), &c, 5), Ok(affine(7985, 1441)));
    assert_eq!(double_add_algorithm(base(), &c, 7), Ok(affine(2443, 7282)));
    assert_eq!(
        double_add_algorithm(CurvePoint::Identity, &c, 1829),
        Ok(CurvePoint::Identity)
    );
}

#[test]
fn scalar_homomorphism_small_scalars() {
    let c = demo_curve();
    for k1 in 0u128..30 {
        for k2 in 0u128..30 {
            let lhs = double_add_algorithm(base(), &c, k1 + k2).unwrap();
            let a = double_add_algorithm(base(), &c, k1).unwrap();
            let b = double_add_algorithm(base(), &c, k2).unwrap();
            assert_eq!(point_addition(&a, &b, &c), Ok(lhs));
        }
    }
}

#[test]
fn end_to_end_secret() {
    let c = demo_curve();
    let r = double_add_algorithm(base(), &c, 1829).unwrap();
    assert_eq!(r, affine(7929, 707));
    let h = hash_point(&r).unwrap();
    assert_eq!(h, "80e5212754a824d3a4aed185ace4f9cac0f908bf");
    assert_eq!(h.len(), 40);
    assert_eq!(hash_point(&r), Some(h));
}

#[test]
fn largest_modulus_no_overflow() {
    let p: u128 = 18446744073709551557;
    let c = Curve { a: 3, b: 7, p };
    let a = affine(p - 1, p - 2);
    let b = affine(p - 3, 5);
    assert_eq!(
        point_addition(&a, &b, &c),
        Ok(affine(13835058055282163684, 2305843009213694007))
    );
    assert_eq!(
        point_doubling(&a, &c),
        Ok(affine(13835058055282163672, 11529215046068469733))
    );
    assert_eq!(
        double_add_algorithm(a, &c, u128::MAX),
        Ok(affine(11139673546755142550, 16602518119171576578))
    );
}

#[test]
fn hash_point_identity_and_x_only() {
    assert_eq!(hash_point(&CurvePoint::Identity), None);
    assert_eq!(
        hash_point(&affine(815, 3190)),
        Some("d528edaa45e66e08a9ece98272130b42e77cef55".to_string())
    );
    assert_eq!(hash_point(&affine(815, 1)), hash_point(&affine(815, 3190)));
    assert_eq!(
        hash_point(&affine(0, 0)),
        Some("b6589fc6ab0dc82cf12099d1c2d40ab994e8410c".to_string())
    );
}

#[test]
fn decimal_text_encoding() {
    assert_eq!(decimal_bytes(0), b"0".to_vec());
    assert_eq!(decimal_bytes(7929), b"7929".to_vec());
    assert_eq!(
        decimal_bytes(u128::MAX),
        u128::MAX.to_string().into_bytes()
    );
}

#[test]
fn hex_rendering() {
    assert_eq!(digest_to_hex(&vec![0x00, 0xff, 0x1a, 0x09]), "00ff1a09");
    assert_eq!(digest_to_hex(&vec![]), "");
}

#[test]
fn extended_euclid_coefficient_bounds() {
    for a in 1i128..60 {
        for b in 1i128..60 {
            let (g, x, y) = extended_euclidean_algorithm(a, b);
            assert!(g > 0);
            assert_eq!(a * x + b * y, g);
            assert!(x.abs() * g <= b && y.abs() * g <= a);
        }
    }
}
