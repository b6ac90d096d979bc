//! Arithmetic in a prime field and the group law of short-Weierstrass
//! elliptic curves over such a field.
//!
//! The crate has three layers: canonical residues modulo a prime and
//! the number theory that governs them (`modular`, `numtheory`), field
//! elements tied to a statically named prime (`field`), and curve
//! points with the chord-and-tangent addition (`curve`, `point`), whose
//! closure proofs live in `grouplaw`.

pub mod curve;
pub mod grouplaw;
pub mod field;
pub mod modular;
pub mod numtheory;
pub mod point;
