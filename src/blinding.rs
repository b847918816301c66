//! RSA base blinding (Kocher, "Timing Attacks on Implementations of
//! Diffie-Hellman, RSA, DSS, and Other Systems").
//!
//! A blinding pair `(A, A_inv)` with `A = r^e mod n` and `A_inv = r^-1 mod n`
//! masks the input of the private operation. After each use both halves are
//! squared, which keeps `A * A_inv^e ≡ 1 (mod n)`; after `REMAINING_MAX` uses
//! a fresh `r` is drawn.
use vstd::prelude::*;
use vstd::arithmetic::power::pow;
use crate::Unspecified;
use crate::arith::{be_value, big_lt, big_modinv, big_modpow, filled, mod_mul,
    lemma_pow_of_inverse, lemma_square_pair, lemma_mul_congruent};
use crate::rand::SecureRandom;

verus! {

/// How many uses a blinding pair serves before a fresh one is drawn.
pub const REMAINING_MAX: usize = 32;

/// How many candidates for `r` are drawn before regeneration gives up.
pub const REGENERATION_ATTEMPTS: usize = 32;

/// How many draws a value below the modulus may take.
const RANDOM_BELOW_ATTEMPTS: usize = 100;

struct Contents {
    /// `A = r^e mod n`.
    blinding_factor: Vec<u8>,
    /// `A_inv = r^-1 mod n`.
    blinding_factor_inv: Vec<u8>,
    remaining: usize,
}

/// The blinding state of one signer: empty, or a loaded pair.
pub struct Blinding(Option<Contents>);

/// The counter after one successful use of a state that is `loaded` with
/// counter `remaining`.
pub open spec fn next_remaining(loaded: bool, remaining: nat) -> nat {
    if loaded && remaining > 0 {
        (remaining - 1) as nat
    } else {
        (REMAINING_MAX - 1) as nat
    }
}

impl Blinding {
    /// Whether a blinding pair is loaded.
    pub closed spec fn is_loaded(&self) -> bool {
        self.0 is Some
    }

    /// The uses left for the loaded pair; 0 when empty.
    pub closed spec fn spec_remaining(&self) -> nat {
        match self.0 {
            Some(c) => c.remaining as nat,
            None => 0,
        }
    }

    /// `A`, the factor that multiplies the input.
    pub closed spec fn factor(&self) -> nat {
        match self.0 {
            Some(c) => be_value(c.blinding_factor@),
            None => 0,
        }
    }

    /// `A_inv`, the factor that multiplies the output.
    pub closed spec fn factor_inv(&self) -> nat {
        match self.0 {
            Some(c) => be_value(c.blinding_factor_inv@),
            None => 0,
        }
    }

    /// A loaded pair is reduced modulo `n`, satisfies `A * A_inv^e ≡ 1 (mod n)`
    /// and has fewer than `REMAINING_MAX` uses left.
    pub open spec fn wf(&self, e: nat, n: nat) -> bool {
        self.is_loaded() ==> {
            &&& self.factor() < n
            &&& self.factor_inv() < n
            &&& (self.factor() * pow(self.factor_inv() as int, e)) % (n as int) == 1
            &&& self.spec_remaining() < REMAINING_MAX
        }
    }

    /// An empty blinding state.
    pub fn new() -> (r: Self)
        ensures
            !r.is_loaded(),
            r.spec_remaining() == 0,
    {
        Blinding(None)
    }

    /// Takes the state out, leaving this one empty.
    pub fn take(&mut self) -> (r: Blinding)
        ensures
            r == *old(self),
            !final(self).is_loaded(),
            final(self).spec_remaining() == 0,
    {
        Blinding(self.0.take())
    }

    /// The uses left for the loaded pair; 0 when empty.
    pub fn remaining(&self) -> (r: usize)
        ensures
            r == self.spec_remaining(),
    {
        match &self.0 {
            Some(c) => c.remaining,
            None => 0,
        }
    }
}

/// The candidate that the drawn bytes `buf` give: `buf` with its first byte
/// cut by `mask`, taken when it is below `n` and refused otherwise.
pub fn accept_candidate(buf: Vec<u8>, mask: u8, n: &Vec<u8>) -> (r: Option<Vec<u8>>)
    requires
        buf@.len() > 0,
    ensures
        r matches Some(v) ==> v@ == buf@.update(0, buf@[0] & mask),
        r is Some <==> be_value(buf@.update(0, buf@[0] & mask)) < be_value(n@),
{
    let mut buf = buf;
    let b0 = buf[0] & mask;
    buf.set(0, b0);
    if big_lt(&buf, n) {
        Some(buf)
    } else {
        None
    }
}

/// Draws a value below `n` from `rng`, by rejection.
fn random_below<R: SecureRandom>(n: &Vec<u8>, rng: &R) -> (r: Result<Vec<u8>, Unspecified>)
    requires
        n@.len() > 0,
    ensures
        r matches Ok(v) ==> be_value(v@) < be_value(n@),
{
    // Keep no more bits of the first byte than the modulus's first byte
    // needs, so that most draws fall below `n`.
    let top = n[0];
    let mut mask: u8 = 0xff;
    while mask > 0 && mask / 2 >= top
        decreases mask,
    {
        mask = mask / 2;
    }
    let mut attempt: usize = 0;
    while attempt < RANDOM_BELOW_ATTEMPTS
        invariant
            n@.len() > 0,
        decreases RANDOM_BELOW_ATTEMPTS - attempt,
    {
        let mut buf = filled(n.len(), 0u8);
        match rng.fill(&mut buf) {
            Ok(()) => {},
            Err(e) => { return Err(e); },
        }
        match accept_candidate(buf, mask, n) {
            Some(v) => { return Ok(v); },
            None => {},
        }
        attempt = attempt + 1;
    }
    Err(Unspecified)
}

/// Why a modular inverse could not be had.
pub enum InversionError {
    /// The value shares a factor with the modulus.
    NoInverse,
    /// The random number generator failed.
    Other,
}

/// `a^-1 mod n` through the random `u`: `u * (a * u mod n)^-1 mod n`, so that
/// the inversion never sees `a` itself. It fails, with `NoInverse`, exactly
/// when `a * u mod n` has no inverse, in particular when `a ≡ 0 (mod n)`.
pub fn blinded_inverse_with(a: &Vec<u8>, u: &Vec<u8>, n: &Vec<u8>) -> (r: Result<Vec<u8>, InversionError>)
    requires
        be_value(n@) > 1,
    ensures
        r matches Ok(x) ==> be_value(x@) < be_value(n@) && (be_value(a@) * be_value(x@)) % be_value(n@) == 1,
        r is Err ==> r == Err::<Vec<u8>, InversionError>(InversionError::NoInverse),
        r is Err <==> forall|x: nat| #![trigger (((be_value(a@) * be_value(u@)) % be_value(n@)) * x)]
            (((be_value(a@) * be_value(u@)) % be_value(n@)) * x) % be_value(n@) != 1,
        be_value(a@) % be_value(n@) == 0 ==> r is Err,
{
    let au = mod_mul(a, u, n);
    proof {
        let (av, uv, nv) = (be_value(a@) as int, be_value(u@) as int, be_value(n@) as int);
        if av % nv == 0 {
            vstd::arithmetic::div_mod::lemma_mod_twice(av, nv);
            vstd::arithmetic::div_mod::lemma_mod_twice(uv, nv);
            lemma_mul_congruent(av, uv, 0, uv, nv);
            vstd::arithmetic::div_mod::lemma_small_mod(0, nv as nat);
            assert forall|x: nat| #![trigger (((av * uv) % nv) * x)] (((av * uv) % nv) * x) % nv != 1 by {
                assert(((av * uv) % nv) * x == 0) by (nonlinear_arith)
                    requires (av * uv) % nv == 0;
            }
        }
    }
    match big_modinv(&au, n) {
        None => {
            proof {
                let (av, uv, nv) = (be_value(a@) as int, be_value(u@) as int, be_value(n@) as int);
                vstd::arithmetic::div_mod::lemma_small_mod(1, nv as nat);
                assert forall|x: nat| #![trigger (((av * uv) % nv) * x)] (((av * uv) % nv) * x) % nv != 1 by {
                    assert((be_value(au@) * x) % be_value(n@) != 1nat % be_value(n@));
                }
            }
            Err(InversionError::NoInverse)
        },
        Some(v) => {
            let x = mod_mul(u, &v, n);
            proof {
                let (av, uv, vv, nv) = (be_value(a@) as int, be_value(u@) as int, be_value(v@) as int, be_value(n@) as int);
                vstd::arithmetic::div_mod::lemma_mod_twice(av * uv, nv);
                vstd::arithmetic::div_mod::lemma_mod_twice(uv * vv, nv);
                vstd::arithmetic::div_mod::lemma_mod_twice(vv, nv);
                vstd::arithmetic::div_mod::lemma_mod_twice(av, nv);
                lemma_mul_congruent(av, (uv * vv) % nv, av, uv * vv, nv);
                lemma_mul_congruent((av * uv) % nv, vv, av * uv, vv, nv);
                assert(av * (uv * vv) == (av * uv) * vv) by (nonlinear_arith);
                vstd::arithmetic::div_mod::lemma_small_mod(1, nv as nat);
                assert((((av * uv) % nv) * vv) % nv == 1);
            }
            Ok(x)
        },
    }
}

/// `a^-1 mod n`, blinded by a random `u` drawn from `rng`; `Other` when the
/// draw fails.
fn inverse_blinded<R: SecureRandom>(a: &Vec<u8>, n: &Vec<u8>, rng: &R) -> (r: Result<Vec<u8>, InversionError>)
    requires
        n@.len() > 0,
        be_value(n@) > 1,
    ensures
        r matches Ok(x) ==> be_value(x@) < be_value(n@) && (be_value(a@) * be_value(x@)) % be_value(n@) == 1,
        be_value(a@) % be_value(n@) == 0 ==> r is Err,
{
    let u = match random_below(n, rng) {
        Ok(u) => u,
        Err(_) => { return Err(InversionError::Other); },
    };
    blinded_inverse_with(a, &u, n)
}

/// What one candidate `r` for the blinding pair leads to.
pub enum Regeneration {
    /// The pair `(r^e mod n, r^-1 mod n)`.
    Pair(Vec<u8>, Vec<u8>),
    /// Draw another candidate.
    Retry,
    /// Stop and fail.
    GiveUp,
}

/// One step of regeneration, for the candidate `candidate` drawn as number
/// `attempt` (from 0) and the outcome of its inversion: with an inverse, the
/// pair `(candidate^e mod n, inverse)`; with none, another draw, unless this
/// was the last of `REGENERATION_ATTEMPTS`; on any other failure, give up.
pub fn regeneration_step(candidate: &Vec<u8>, inversion: Result<Vec<u8>, InversionError>, attempt: usize,
    e: &Vec<u8>, n: &Vec<u8>) -> (r: Regeneration)
    requires
        be_value(n@) > 1,
        attempt < REGENERATION_ATTEMPTS,
    ensures
        inversion matches Ok(x) ==> r matches Regeneration::Pair(a, a_inv)
            && be_value(a@) == pow(be_value(candidate@) as int, be_value(e@)) % (be_value(n@) as int)
            && a_inv@ == x@,
        inversion matches Err(InversionError::NoInverse) ==> if attempt + 1 < REGENERATION_ATTEMPTS {
            r is Retry
        } else {
            r is GiveUp
        },
        inversion matches Err(InversionError::Other) ==> r is GiveUp,
{
    match inversion {
        Ok(x) => Regeneration::Pair(big_modpow(candidate, e, n), x),
        Err(InversionError::NoInverse) => {
            if attempt + 1 < REGENERATION_ATTEMPTS {
                Regeneration::Retry
            } else {
                Regeneration::GiveUp
            }
        },
        Err(InversionError::Other) => Regeneration::GiveUp,
    }
}

/// Draws a fresh blinding pair: candidates `r < n` until one is invertible,
/// at most `REGENERATION_ATTEMPTS` of them; fails at once when a draw fails.
fn reset<R: SecureRandom>(e: &Vec<u8>, n: &Vec<u8>, rng: &R) -> (r: Result<Contents, Unspecified>)
    requires
        n@.len() > 0,
        be_value(n@) > 1,
    ensures
        r matches Ok(c) ==> c.remaining == REMAINING_MAX - 1 && (Blinding(Some(c))).wf(be_value(e@), be_value(n@))
            && exists|r0: nat| r0 < be_value(n@)
                && be_value(c.blinding_factor@) == pow(r0 as int, be_value(e@)) % (be_value(n@) as int)
                && #[trigger] ((r0 * be_value(c.blinding_factor_inv@)) % be_value(n@)) == 1,
{
    let mut attempt: usize = 0;
    while attempt < REGENERATION_ATTEMPTS
        invariant
            n@.len() > 0,
            be_value(n@) > 1,
        decreases REGENERATION_ATTEMPTS - attempt,
    {
        let random = match random_below(n, rng) {
            Ok(v) => v,
            Err(err) => { return Err(err); },
        };
        let inversion = inverse_blinded(&random, n, rng);
        let ghost inv_ok = inversion;
        match regeneration_step(&random, inversion, attempt, e, n) {
            Regeneration::Pair(factor, random_inv) => {
                proof {
                    let x = inv_ok->Ok_0;
                    assert(x@ == random_inv@);
                    assert(be_value(random_inv@) < be_value(n@));
                    assert(be_value(random@) < be_value(n@));
                    lemma_pow_of_inverse(be_value(random@) as int, be_value(random_inv@) as int,
                        be_value(e@), be_value(n@) as int);
                    assert(((be_value(random@) * be_value(random_inv@)) % be_value(n@)) == 1);
                    assert(be_value(factor@) < be_value(n@));
                    let c = Contents { blinding_factor: factor, blinding_factor_inv: random_inv,
                        remaining: (REMAINING_MAX - 1) as usize };
                    assert((Blinding(Some(c))).wf(be_value(e@), be_value(n@)));
                }
                return Ok(Contents {
                    blinding_factor: factor,
                    blinding_factor_inv: random_inv,
                    remaining: REMAINING_MAX - 1,
                });
            },
            Regeneration::Retry => {},
            Regeneration::GiveUp => { return Err(Unspecified); },
        }
        attempt = attempt + 1;
    }
    Err(Unspecified)
}

impl Blinding {
    /// Runs `f` on `x` blinded: returns `A_inv * f(A * x mod n) mod n`, where
    /// `(A, A_inv)` is the pair that the state holds afterwards. The pair is
    /// the previous one squared, or a fresh one when the previous was used up
    /// or there was none. On any failure the state is left empty.
    pub fn blind<R: SecureRandom, F>(&mut self, x: Vec<u8>, e: &Vec<u8>, n: &Vec<u8>, rng: &R, f: F)
        -> (r: Result<Vec<u8>, Unspecified>)
        where
            F: FnOnce(Vec<u8>) -> Result<Vec<u8>, Unspecified>,
        requires
            n@.len() > 0,
            be_value(n@) > 1,
            be_value(x@) < be_value(n@),
            old(self).wf(be_value(e@), be_value(n@)),
            forall|z: Vec<u8>| be_value(z@) < be_value(n@) ==> #[trigger] f.requires((z,)),
        ensures
            final(self).wf(be_value(e@), be_value(n@)),
            r is Err ==> !final(self).is_loaded(),
            r is Ok ==> final(self).is_loaded() && final(self).spec_remaining()
                == next_remaining(old(self).is_loaded(), old(self).spec_remaining()),
            old(self).is_loaded() && old(self).spec_remaining() > 0 && r is Ok ==>
                final(self).factor() == (old(self).factor() * old(self).factor()) % be_value(n@)
                && final(self).factor_inv() == (old(self).factor_inv() * old(self).factor_inv()) % be_value(n@),
            old(self).is_loaded() && old(self).spec_remaining() > 0
                && (forall|z: Vec<u8>, o: Result<Vec<u8>, Unspecified>|
                    be_value(z@) < be_value(n@) && #[trigger] f.ensures((z,), o) ==> o is Ok) ==> r is Ok,
            r matches Ok(y) ==> exists|z: Vec<u8>, w: Vec<u8>|
                #[trigger] f.ensures((z,), Ok::<Vec<u8>, Unspecified>(w))
                && be_value(z@) == (final(self).factor() * be_value(x@)) % be_value(n@)
                && be_value(y@) == (final(self).factor_inv() * be_value(w@)) % be_value(n@),
    {
        let old_contents = self.0.take();
        let contents = match old_contents {
            Some(c) => {
                if c.remaining > 0 {
                    let blinding_factor = mod_mul(&c.blinding_factor, &c.blinding_factor, n);
                    let blinding_factor_inv = mod_mul(&c.blinding_factor_inv, &c.blinding_factor_inv, n);
                    proof {
                        lemma_square_pair(be_value(c.blinding_factor@) as int,
                            be_value(c.blinding_factor_inv@) as int, be_value(e@), be_value(n@) as int);
                    }
                    Contents { blinding_factor, blinding_factor_inv, remaining: c.remaining - 1 }
                } else {
                    match reset(e, n, rng) {
                        Ok(c) => c,
                        Err(err) => { return Err(err); },
                    }
                }
            },
            None => {
                match reset(e, n, rng) {
                    Ok(c) => c,
                    Err(err) => { return Err(err); },
                }
            },
        };
        let blinded = mod_mul(&contents.blinding_factor, &x, n);
        let result = match f(blinded) {
            Ok(v) => v,
            Err(err) => { return Err(err); },
        };
        let y = mod_mul(&contents.blinding_factor_inv, &result, n);
        self.0 = Some(contents);
        Ok(y)
    }
}

/// The counter after `k` successful uses of a state that starts empty.
pub open spec fn remaining_after(k: nat) -> nat
    decreases k,
{
    if k == 0 {
        0
    } else {
        next_remaining(k > 1, remaining_after((k - 1) as nat))
    }
}

/// One successful use moves the counter one step down, cyclically:
/// `(new + 1) mod REMAINING_MAX` is the old counter (0 for an empty state).
pub proof fn lemma_remaining_step(before: Blinding, after: Blinding, e: nat, n: nat)
    requires
        before.wf(e, n),
        after.is_loaded(),
        after.spec_remaining() == next_remaining(before.is_loaded(), before.spec_remaining()),
    ensures
        (after.spec_remaining() + 1) % (REMAINING_MAX as nat) == before.spec_remaining(),
{
}

/// Over `k >= 1` successful uses from an empty state the counter reads
/// `REMAINING_MAX - 1, REMAINING_MAX - 2, ..., 0, REMAINING_MAX - 1, ...`.
pub proof fn lemma_remaining_sequence(k: nat)
    requires
        k >= 1,
    ensures
        remaining_after(k) == (REMAINING_MAX - 1) - ((k - 1) as nat % (REMAINING_MAX as nat)),
    decreases k,
{
    if k > 1 {
        lemma_remaining_sequence((k - 1) as nat);
    }
}

} // verus!
