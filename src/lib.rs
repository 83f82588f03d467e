//! Elliptic-curve arithmetic over a prime field: modular inverses, the group
//! law on a short Weierstrass curve, double-and-add scalar multiplication and
//! a digest of a point's x-coordinate.

pub mod modular;
pub mod curve;
pub mod scalar;
pub mod laws;
pub mod digest;
