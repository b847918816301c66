//! RSA private-key signing: key validation, base blinding and the CRT
//! private transform, producing PKCS#1 v1.5 and PSS signatures.
use vstd::prelude::*;

pub mod arith;
pub mod der;
pub mod digest;
pub mod padding;
pub mod rand;
pub mod blinding;
pub mod signing;

verus! {

/// The single opaque error of every operation in this crate. It never tells
/// which check failed.
#[derive(Debug, Clone, Copy, PartialEq, Eq, Structural)]
pub struct Unspecified;

} // verus!
