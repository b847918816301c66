//! RSA key pairs and signing with them.
use vstd::prelude::*;
use vstd::arithmetic::power::pow;
use std::sync::Arc;
use crate::Unspecified;
use crate::arith::{be_value, bit_len, big_add, big_bits, big_eq, big_lt, big_modpow, big_mul,
    big_rem, big_sub, is_odd, is_one, is_zero, lemma_be_leading_nonzero, lemma_bit_len_bounds, lemma_bits_fit_bytes, lemma_crt_recombine, lemma_leading_00_01_below, lemma_unblind, mod_mul, to_fixed_be};
use crate::blinding::{Blinding, next_remaining};
use crate::der::{parse_private_key, private_key_der, is_minimal_positive, key_der_at,
    private_key_der_version, der_tlv, ints_enc, lemma_version_fixed};
use crate::digest::{digest, digest_of};
use crate::padding::{RsaEncoding, is_encoding};
use crate::rand::SecureRandom;

verus! {

/// The smallest accepted modulus, in bits.
pub const PRIVATE_KEY_PUBLIC_MODULUS_MIN_BITS: usize = 2048;

/// The largest accepted modulus, in bits.
pub const PRIVATE_KEY_PUBLIC_MODULUS_MAX_BITS: usize = 4096;

/// The largest accepted public exponent, in bits.
pub const PUBLIC_EXPONENT_MAX_BITS: usize = 33;

/// What a key pair holds, as numbers: `n_bits` is the bit length of `n`,
/// `2048 <= n_bits <= 4096`, `e` is odd with `3 <= e < n` and at most 33 bits,
/// `p` and `q` are odd, `q < p < n`, both have `⌈n_bits / 2⌉` bits and
/// `p * q = n`; `dmp1` and `dmq1` are odd with `dmp1 < p` and
/// `dmq1 < q`; `iqmp < p` and `iqmp * q ≡ 1 (mod p)`.
pub open spec fn key_invariants(n: nat, e: nat, p: nat, q: nat, dmp1: nat, dmq1: nat, iqmp: nat,
    n_bits: nat) -> bool {
    &&& n_bits == bit_len(n)
    &&& PRIVATE_KEY_PUBLIC_MODULUS_MIN_BITS <= n_bits <= PRIVATE_KEY_PUBLIC_MODULUS_MAX_BITS
    &&& n % 2 == 1
    &&& e % 2 == 1 && 3 <= e && e < n && bit_len(e) <= PUBLIC_EXPONENT_MAX_BITS
    &&& bit_len(p) == (n_bits + 1) / 2 && bit_len(q) == bit_len(p)
    &&& p % 2 == 1 && q % 2 == 1
    &&& 0 < q < p < n
    &&& p * q == n
    &&& dmp1 % 2 == 1 && dmp1 < p
    &&& dmq1 % 2 == 1 && dmq1 < q
    &&& iqmp < p && (iqmp * q) % p == 1
}

/// The checks that a parsed `RSAPrivateKey` with the values `n, e, d, p, q,
/// dmp1, dmq1, iqmp` must pass: the key invariants, with `d` odd,
/// `e < d < n`.
pub open spec fn valid_key_values(vs: Seq<nat>) -> bool {
    let (n, e, d, p, q, dmp1, dmq1, iqmp) = (vs[0], vs[1], vs[2], vs[3], vs[4], vs[5], vs[6], vs[7]);
    &&& vs.len() == 8
    &&& key_invariants(n, e, p, q, dmp1, dmq1, iqmp, bit_len(n))
    &&& d % 2 == 1 && e < d && d < n
}

/// The values of the integers written by `vs`.
pub open spec fn values_of(vs: Seq<Seq<u8>>) -> Seq<nat> {
    vs.map_values(|v: Seq<u8>| be_value(v))
}

/// `input` is the DER encoding of an `RSAPrivateKey` of version 0 whose
/// integers, written minimally by `vs`, pass every check.
pub open spec fn encodes_valid_key(input: Seq<u8>, vs: Seq<Seq<u8>>) -> bool {
    &&& vs.len() == 8
    &&& forall|i: int| 0 <= i < 8 ==> #[trigger] is_minimal_positive(vs[i])
    &&& input == private_key_der(vs)
    &&& valid_key_values(values_of(vs))
}

/// An RSA key pair, validated, for signing. Share it between several
/// `RSASigningState`s through an `Arc`.
pub struct RSAKeyPair {
    n: Vec<u8>,
    e: Vec<u8>,
    p: Vec<u8>,
    q: Vec<u8>,
    dmp1: Vec<u8>,
    dmq1: Vec<u8>,
    iqmp: Vec<u8>,
    n_bits: usize,
}

impl RSAKeyPair {
    /// The public modulus `n`.
    pub closed spec fn spec_n(&self) -> nat { be_value(self.n@) }
    /// The public exponent `e`.
    pub closed spec fn spec_e(&self) -> nat { be_value(self.e@) }
    /// The larger prime factor `p`.
    pub closed spec fn spec_p(&self) -> nat { be_value(self.p@) }
    /// The smaller prime factor `q`.
    pub closed spec fn spec_q(&self) -> nat { be_value(self.q@) }
    /// The CRT exponent for `p`, `d mod (p - 1)`.
    pub closed spec fn spec_dmp1(&self) -> nat { be_value(self.dmp1@) }
    /// The CRT exponent for `q`, `d mod (q - 1)`.
    pub closed spec fn spec_dmq1(&self) -> nat { be_value(self.dmq1@) }
    /// The CRT coefficient `q^-1 mod p`.
    pub closed spec fn spec_iqmp(&self) -> nat { be_value(self.iqmp@) }
    /// The bit length of `n`.
    pub closed spec fn spec_n_bits(&self) -> nat { self.n_bits as nat }

    /// Every key pair keeps the key invariants.
    #[verifier::type_invariant]
    pub closed spec fn inv(&self) -> bool {
        self.wf()
    }

    /// The key invariants, over the key pair's values.
    pub open spec fn wf(&self) -> bool {
        key_invariants(self.spec_n(), self.spec_e(), self.spec_p(), self.spec_q(),
            self.spec_dmp1(), self.spec_dmq1(), self.spec_iqmp(), self.spec_n_bits())
    }

    /// The key pair's values are those written by `vs` (`d` is not kept).
    pub open spec fn has_values(&self, vs: Seq<nat>) -> bool {
        &&& self.spec_n() == vs[0]
        &&& self.spec_e() == vs[1]
        &&& self.spec_p() == vs[3]
        &&& self.spec_q() == vs[4]
        &&& self.spec_dmp1() == vs[5]
        &&& self.spec_dmq1() == vs[6]
        &&& self.spec_iqmp() == vs[7]
        &&& self.spec_n_bits() == bit_len(vs[0])
    }
}

impl RSAKeyPair {
    /// Parses and validates a private key in DER-encoded ASN.1
    /// `RSAPrivateKey` form (RFC 3447, appendix A.1.2). Only two-prime keys
    /// (version 0) with a modulus of 2048 to 4096 bits are accepted. Every
    /// failure is the same opaque error.
    pub fn from_der(input: &[u8]) -> (r: Result<RSAKeyPair, Unspecified>)
        ensures
            r is Ok <==> exists|vs: Seq<Seq<u8>>| #[trigger] encodes_valid_key(input@, vs),
            r matches Ok(k) ==> k.wf() && forall|vs: Seq<Seq<u8>>|
                #[trigger] encodes_valid_key(input@, vs) ==> k.has_values(values_of(vs)),
            forall|vs: Seq<Seq<u8>>| #[trigger] key_der_at(input@, vs) ==>
                (r is Ok <==> valid_key_values(values_of(vs))),
            forall|v: u8, vs: Seq<Seq<u8>>| v != 0 && #[trigger] private_key_der_version(v, vs) == input@
                && (der_tlv(0x02, seq![v]) + ints_enc(vs)).len() < 65536 ==> r is Err,
    {
        proof {
            assert forall|vs: Seq<Seq<u8>>| #[trigger] encodes_valid_key(input@, vs) implies
                key_der_at(input@, vs) by {
                lemma_valid_key_fits(input@, vs);
            }
        }
        let f = match parse_private_key(input) {
            Ok(f) => f,
            Err(e) => { return Err(e); },
        };
        let ghost vs = f.values();
        assert(forall|ws: Seq<Seq<u8>>| #[trigger] encodes_valid_key(input@, ws) ==> ws == vs);
        proof {
            assert forall|v: u8, ws: Seq<Seq<u8>>| v != 0 && #[trigger] private_key_der_version(v, ws) == input@
                && (der_tlv(0x02, seq![v]) + ints_enc(ws)).len() < 65536 implies false by {
                lemma_version_fixed(v, ws, 0, vs);
            }
        }
        let ghost nv = values_of(vs);
        assert(nv[0] == be_value(f.n@) && nv[1] == be_value(f.e@) && nv[2] == be_value(f.d@)
            && nv[3] == be_value(f.p@) && nv[4] == be_value(f.q@) && nv[5] == be_value(f.dmp1@)
            && nv[6] == be_value(f.dmq1@) && nv[7] == be_value(f.iqmp@));

        // The public modulus and exponent.
        let n_bits_64 = big_bits(&f.n);
        if n_bits_64 < PRIVATE_KEY_PUBLIC_MODULUS_MIN_BITS as u64
            || n_bits_64 > PRIVATE_KEY_PUBLIC_MODULUS_MAX_BITS as u64 {
            return Err(Unspecified);
        }
        let n_bits = n_bits_64 as usize;
        if !is_odd(&f.n) || !is_odd(&f.e) {
            return Err(Unspecified);
        }
        let three: Vec<u8> = vec![3u8];
        assert(three@.drop_last() =~= Seq::<u8>::empty());
        assert(be_value(three@.drop_last()) == 0);
        assert(be_value(three@) == 3);
        if big_lt(&f.e, &three) || big_bits(&f.e) > PUBLIC_EXPONENT_MAX_BITS as u64 {
            return Err(Unspecified);
        }

        // The private exponent.
        if !is_odd(&f.d) || !big_lt(&f.e, &f.d) || !big_lt(&f.d, &f.n) {
            return Err(Unspecified);
        }

        // The primes: both half as long as the modulus, `q < p`.
        let half_n_bits = (n_bits_64 + 1) / 2;
        if big_bits(&f.p) != half_n_bits || !is_odd(&f.p) {
            return Err(Unspecified);
        }
        if big_bits(&f.q) != half_n_bits || !is_odd(&f.q) || !big_lt(&f.q, &f.p) {
            return Err(Unspecified);
        }

        // `p * q = n`, checked on the exact product.
        let pq = big_mul(&f.p, &f.q);
        if !big_eq(&pq, &f.n) {
            return Err(Unspecified);
        }

        // The CRT exponents: odd, so below `p - 1` and `q - 1` once below
        // `p` and `q`.
        if !is_odd(&f.dmp1) || !big_lt(&f.dmp1, &f.p) || !is_odd(&f.dmq1) || !big_lt(&f.dmq1, &f.q) {
            return Err(Unspecified);
        }

        // The CRT coefficient: `iqmp * q ≡ 1 (mod p)`.
        if !big_lt(&f.iqmp, &f.p) {
            return Err(Unspecified);
        }
        let iqmp_times_q = mod_mul(&f.iqmp, &f.q, &f.p);
        if !is_one(&iqmp_times_q) {
            return Err(Unspecified);
        }

        proof {
            let (pv, qv) = (be_value(f.p@), be_value(f.q@));
            assert(bit_len(0) == 0);
            assert(1nat / 2 == 0);
            assert(bit_len(1) == 1);
            assert(qv >= 2);
            assert(pv < be_value(f.n@)) by (nonlinear_arith)
                requires pv * qv == be_value(f.n@), qv >= 2, pv > 0;
        }
        let k = RSAKeyPair {
            n: f.n,
            e: f.e,
            p: f.p,
            q: f.q,
            dmp1: f.dmp1,
            dmq1: f.dmq1,
            iqmp: f.iqmp,
            n_bits,
        };
        assert(encodes_valid_key(input@, vs));
        assert(k.has_values(values_of(vs)));
        Ok(k)
    }

    /// The length in bytes of the public modulus, which is the length of
    /// every signature.
    pub fn public_modulus_len(&self) -> (r: usize)
        ensures
            r == (bit_len(self.spec_n()) + 7) / 8,
    {
        proof {
            use_type_invariant(self);
        }
        (self.n_bits + 7) / 8
    }
}

/// Garner's recombination for key `k` of the CRT halves
/// `mp = c^dmp1 mod p` and `mq = c^dmq1 mod q`:
/// `(mq + q * (iqmp * ((mp - mq) mod p) mod p)) mod n`.
pub open spec fn crt_value(k: RSAKeyPair, c: nat) -> nat {
    let (p, q, n) = (k.spec_p() as int, k.spec_q() as int, k.spec_n() as int);
    let mp = pow(c as int, k.spec_dmp1()) % p;
    let mq = pow(c as int, k.spec_dmq1()) % q;
    ((mq + q * ((k.spec_iqmp() * ((mp + p - mq) % p)) % p)) % n) as nat
}

/// The CRT exponents of `k` undo `e`: for every `c < n`,
/// `crt_value(k, c)^e ≡ c (mod n)`.
pub open spec fn crt_consistent(k: RSAKeyPair) -> bool {
    forall|c: nat| c < k.spec_n() ==> #[trigger] (pow(crt_value(k, c) as int, k.spec_e())
        % (k.spec_n() as int)) == c as int
}

impl RSAKeyPair {
    /// The private operation by the Chinese Remainder Theorem:
    /// `m_p = c^dmp1 mod p`, `m_q = c^dmq1 mod q`,
    /// `m = m_q + q * (iqmp * (m_p - m_q) mod p)`. The result is checked
    /// against the public exponent, `m^e ≡ c (mod n)`, so that a fault or a
    /// bad CRT exponent gives an error and never a wrong signature.
    fn private_transform(&self, c: Vec<u8>) -> (r: Result<Vec<u8>, Unspecified>)
        requires
            be_value(c@) < self.spec_n(),
        ensures
            r matches Ok(m) ==> be_value(m@) < self.spec_n()
                && pow(be_value(m@) as int, self.spec_e()) % (self.spec_n() as int) == be_value(c@),
            r matches Ok(m) ==> be_value(m@) as int % self.spec_p() as int
                == pow(be_value(c@) as int, self.spec_dmp1()) % self.spec_p() as int
                && be_value(m@) as int % self.spec_q() as int
                == pow(be_value(c@) as int, self.spec_dmq1()) % self.spec_q() as int,
            r matches Ok(m) ==> be_value(m@) == crt_value(*self, be_value(c@)),
            r is Ok <==> pow(crt_value(*self, be_value(c@)) as int, self.spec_e()) % (self.spec_n() as int)
                == be_value(c@),
    {
        proof {
            use_type_invariant(self);
        }
        let c_p = big_rem(&c, &self.p);
        let c_q = big_rem(&c, &self.q);
        let m_p = big_modpow(&c_p, &self.dmp1, &self.p);
        let m_q = big_modpow(&c_q, &self.dmq1, &self.q);
        // `m_q < q < p`, so `m_p - m_q mod p` needs at most one addition of `p`.
        let diff = if big_lt(&m_p, &m_q) {
            big_sub(&big_add(&m_p, &self.p), &m_q)
        } else {
            big_sub(&m_p, &m_q)
        };
        let h = mod_mul(&self.iqmp, &diff, &self.p);
        let m = big_rem(&big_add(&m_q, &big_mul(&h, &self.q)), &self.n);
        proof {
            let (cv, pv, qv, nv) = (be_value(c@) as int, self.spec_p() as int, self.spec_q() as int,
                self.spec_n() as int);
            let (mpv, mqv, dv) = (be_value(m_p@) as int, be_value(m_q@) as int, be_value(diff@) as int);
            vstd::arithmetic::power::lemma_pow_mod_noop(cv, self.spec_dmp1(), pv);
            vstd::arithmetic::power::lemma_pow_mod_noop(cv, self.spec_dmq1(), qv);
            if mpv < mqv {
                assert(dv + mqv == mpv + pv);
                vstd::arithmetic::div_mod::lemma_mod_add_multiples_vanish(mpv, pv);
                vstd::arithmetic::div_mod::lemma_small_mod(mpv as nat, pv as nat);
                vstd::arithmetic::div_mod::lemma_small_mod(dv as nat, pv as nat);
            } else {
                vstd::arithmetic::div_mod::lemma_small_mod(mpv as nat, pv as nat);
                vstd::arithmetic::div_mod::lemma_mod_add_multiples_vanish(dv, pv);
                vstd::arithmetic::div_mod::lemma_small_mod(dv as nat, pv as nat);
            }
            assert(dv == (mpv + pv - mqv) % pv);
            let hv = be_value(h@) as int;
            assert(hv * qv == qv * hv) by (nonlinear_arith);
            assert(be_value(m@) == crt_value(*self, be_value(c@)));
            lemma_crt_recombine(mpv, mqv, dv, hv, self.spec_iqmp() as int, pv, qv);
            vstd::arithmetic::div_mod::lemma_small_mod((mqv + hv * qv) as nat, nv as nat);
        }
        let check = big_modpow(&m, &self.e, &self.n);
        if !big_eq(&check, &c) {
            return Err(Unspecified);
        }
        proof {
            vstd::arithmetic::div_mod::lemma_small_mod(be_value(c@), self.spec_n());
        }
        Ok(m)
    }
}

/// The signing state of one signer: a shared key pair and a blinding state
/// of its own. Calls of `sign` on one state must not overlap; use several
/// states on one key pair for parallel signing.
pub struct RSASigningState {
    key_pair: Arc<RSAKeyPair>,
    blinding: Blinding,
}

impl RSASigningState {
    /// The key pair that this state signs with.
    pub closed spec fn spec_key(&self) -> RSAKeyPair {
        *self.key_pair
    }

    /// The blinding state of this signer.
    pub closed spec fn spec_blinding(&self) -> Blinding {
        self.blinding
    }

    /// The blinding state fits the key pair.
    pub open spec fn wf(&self) -> bool {
        self.spec_blinding().wf(self.spec_key().spec_e(), self.spec_key().spec_n())
    }

    /// A signing state for `key_pair`, with an empty blinding state.
    pub fn new(key_pair: Arc<RSAKeyPair>) -> (r: Result<Self, Unspecified>)
        ensures
            r matches Ok(s) ==> s.wf() && s.spec_key() == *key_pair && !s.spec_blinding().is_loaded()
                && s.spec_blinding().spec_remaining() == 0,
            r is Ok,
    {
        Ok(RSASigningState { key_pair, blinding: Blinding::new() })
    }

    /// The key pair.
    pub fn key_pair(&self) -> (r: &RSAKeyPair)
        ensures
            *r == self.spec_key(),
    {
        &*self.key_pair
    }

    /// The blinding state.
    pub fn blinding(&self) -> (r: &Blinding)
        ensures
            *r == self.spec_blinding(),
    {
        &self.blinding
    }

    /// Signs `msg`: digests it with the digest algorithm of `padding_alg`,
    /// encodes the digest, and applies the private key to the encoding under
    /// base blinding. The signature is written into `signature`, whose length
    /// must be exactly `public_modulus_len()`; on failure `signature` is left
    /// as it was and the blinding state is empty. `rng` serves the blinding
    /// and the PSS salt. With PKCS#1 padding, a blinding pair that is loaded
    /// and not used up, and CRT exponents that undo `e`, no draw is made and
    /// signing succeeds.
    pub fn sign<R: SecureRandom>(&mut self, padding_alg: &RsaEncoding, rng: &R, msg: &[u8],
        signature: &mut Vec<u8>) -> (r: Result<(), Unspecified>)
        requires
            old(self).wf(),
        ensures
            final(self).wf(),
            final(self).spec_key() == old(self).spec_key(),
            old(signature)@.len() != (bit_len(old(self).spec_key().spec_n()) + 7) / 8 ==> r is Err,
            old(signature)@.len() == (bit_len(old(self).spec_key().spec_n()) + 7) / 8
                && !padding_alg.is_pss()
                && old(self).spec_blinding().is_loaded()
                && old(self).spec_blinding().spec_remaining() > 0
                && crt_consistent(old(self).spec_key()) ==> r is Ok,
            r is Err ==> final(signature)@ == old(signature)@,
            r is Err ==> !final(self).spec_blinding().is_loaded()
                && final(self).spec_blinding().spec_remaining() == 0,
            r is Ok ==> ({
                let key = old(self).spec_key();
                let s = be_value(final(signature)@);
                &&& final(signature)@.len() == (bit_len(key.spec_n()) + 7) / 8
                &&& s < key.spec_n()
                &&& exists|em: Seq<u8>|
                    is_encoding(*padding_alg, digest_of(padding_alg.spec_digest_alg(), msg@),
                        bit_len(key.spec_n()), em)
                    && pow(s as int, key.spec_e()) % (key.spec_n() as int) == #[trigger] be_value(em)
                &&& final(self).spec_blinding().is_loaded()
                &&& final(self).spec_blinding().spec_remaining() == next_remaining(
                    old(self).spec_blinding().is_loaded(), old(self).spec_blinding().spec_remaining())
            }),
    {
        let mut blinding = self.blinding.take();
        let key: &RSAKeyPair = &*self.key_pair;
        proof {
            use_type_invariant(key);
        }
        let mod_bits = key.n_bits;
        let mod_len = key.public_modulus_len();
        if signature.len() != mod_len {
            return Err(Unspecified);
        }
        let alg = padding_alg.digest_alg();
        let m_hash = digest(alg, msg);
        let em = match padding_alg.encode(m_hash.as_slice(), mod_bits, rng) {
            Ok(em) => em,
            Err(e) => { return Err(e); },
        };
        proof {
            if !padding_alg.is_pss() {
                lemma_leading_00_01_below(em@, key.spec_n());
            }
        }
        if !big_lt(&em, &key.n) {
            return Err(Unspecified);
        }
        let ghost em_seq = em@;
        let transform = |z: Vec<u8>| -> (out: Result<Vec<u8>, Unspecified>)
            requires
                be_value(z@) < key.spec_n(),
            ensures
                out matches Ok(m) ==> pow(be_value(m@) as int, key.spec_e()) % (key.spec_n() as int)
                    == be_value(z@),
                out is Ok <==> pow(crt_value(*key, be_value(z@)) as int, key.spec_e())
                    % (key.spec_n() as int) == be_value(z@),
            { key.private_transform(z) };
        let result = blinding.blind(em, &key.e, &key.n, rng, transform);
        let y = match result {
            Ok(y) => y,
            Err(e) => { return Err(e); },
        };
        proof {
            let b = blinding;
            let n = key.spec_n() as int;
            let (z, w) = choose|z: Vec<u8>, w: Vec<u8>|
                #[trigger] transform.ensures((z,), Ok::<Vec<u8>, Unspecified>(w))
                && be_value(z@) == (b.factor() * be_value(em_seq)) % key.spec_n()
                && be_value(y@) == (b.factor_inv() * be_value(w@)) % key.spec_n();
            lemma_unblind(b.factor() as int, b.factor_inv() as int, be_value(em_seq) as int,
                be_value(z@) as int, be_value(w@) as int, be_value(y@) as int, key.spec_e(), n);
            lemma_bit_len_bounds(key.spec_n());
            lemma_bits_fit_bytes(bit_len(key.spec_n()));
        }
        let out = match to_fixed_be(&y, mod_len) {
            Some(out) => out,
            None => { return Err(Unspecified); },
        };
        *signature = out;
        self.blinding = blinding;
        assert(is_encoding(*padding_alg, digest_of(padding_alg.spec_digest_alg(), msg@),
            bit_len(key.spec_n()), em_seq));
        Ok(())
    }
}

proof fn lemma_pow_2_4096()
    ensures
        pow(2, 4096) == pow(256, 512),
{
    vstd::arithmetic::power::lemma_pow_multiplies(2, 8, 512);
    reveal_with_fuel(pow, 9);
    assert(pow(2, 8) == 256);
}

/// A minimally written value below `256^512` takes at most 512 bytes.
proof fn lemma_short_value(v: Seq<u8>, bound: nat)
    requires
        is_minimal_positive(v),
        be_value(v) <= bound,
        bound < pow(256, 512),
    ensures
        v.len() <= 512,
{
    if v.len() > 512 {
        lemma_be_leading_nonzero(v);
        vstd::arithmetic::power::lemma_pow_increases(256, 512, (v.len() - 1) as nat);
    }
}

/// The integers of a valid key are all below `n < 2^4096`, so none takes
/// more than 512 bytes.
proof fn lemma_valid_key_fits(input: Seq<u8>, vs: Seq<Seq<u8>>)
    requires
        encodes_valid_key(input, vs),
    ensures
        key_der_at(input, vs),
{
    let nv = values_of(vs);
    let n = nv[0];
    lemma_bit_len_bounds(n);
    vstd::arithmetic::power::lemma_pow_increases(2, bit_len(n), 4096);
    lemma_pow_2_4096();
    assert forall|i: int| 0 <= i < 8 implies is_minimal_positive(#[trigger] vs[i]) && vs[i].len() <= 1024 by {
        assert(nv[i] == be_value(vs[i]));
        lemma_short_value(vs[i], n);
    }
}

/// What an accepted key guarantees of its factors: `p * q = n`, `q < p`,
/// `iqmp * q ≡ 1 (mod p)`, and both factors have `⌈bitlen(n) / 2⌉` bits.
pub proof fn lemma_accepted_key_factors(n: nat, e: nat, p: nat, q: nat, dmp1: nat, dmq1: nat,
    iqmp: nat, n_bits: nat)
    requires
        key_invariants(n, e, p, q, dmp1, dmq1, iqmp, n_bits),
    ensures
        p * q == n,
        q < p,
        (iqmp * q) % p == 1,
        bit_len(p) == (bit_len(n) + 1) / 2,
        bit_len(q) == (bit_len(n) + 1) / 2,
{
}

} // verus!
