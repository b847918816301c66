//! The source of randomness that signing draws on.
use vstd::prelude::*;
use crate::Unspecified;

verus! {

/// A secure random number generator.
pub trait SecureRandom {
    /// Overwrites `dest` with random bytes, or fails. The length of `dest`
    /// stays as it was.
    fn fill(&self, dest: &mut Vec<u8>) -> (r: Result<(), Unspecified>)
        ensures
            final(dest)@.len() == old(dest)@.len(),
    ;
}

/// The operating system's random number generator.
pub struct SystemRandom;

impl SystemRandom {
    pub fn new() -> (r: SystemRandom) {
        SystemRandom
    }
}

/// Relies on `rand::RngCore::try_fill_bytes` of `rand::rngs::OsRng`: it writes
/// random bytes over the buffer in place and reports the operating system's
/// failure.
#[verifier::external_body]
fn os_fill(dest: &mut Vec<u8>) -> (r: Result<(), Unspecified>)
    ensures
        final(dest)@.len() == old(dest)@.len(),
{
    match ::rand::RngCore::try_fill_bytes(&mut ::rand::rngs::OsRng, dest.as_mut_slice()) {
        Ok(()) => Ok(()),
        Err(_) => Err(Unspecified),
    }
}

impl SecureRandom for SystemRandom {
    fn fill(&self, dest: &mut Vec<u8>) -> (r: Result<(), Unspecified>) {
        os_fill(dest)
    }
}

} // verus!
