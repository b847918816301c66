//! The PKCS#1 v1.5 and PSS encodings of a message digest (RFC 8017).
use vstd::prelude::*;
use crate::Unspecified;
use crate::digest::{DigestAlgorithm, digest, digest_of, output_len_of};
use crate::rand::SecureRandom;
use crate::arith::filled;

verus! {

/// A signature encoding: a padding scheme together with its digest algorithm.
#[derive(Debug, Clone, Copy, PartialEq, Eq, Structural)]
pub enum RsaEncoding {
    Pkcs1Sha256,
    Pkcs1Sha384,
    Pkcs1Sha512,
    PssSha256,
    PssSha384,
    PssSha512,
}

/// PKCS#1 v1.5 padding with SHA-256.
pub const RSA_PKCS1_SHA256: RsaEncoding = RsaEncoding::Pkcs1Sha256;
/// PKCS#1 v1.5 padding with SHA-384.
pub const RSA_PKCS1_SHA384: RsaEncoding = RsaEncoding::Pkcs1Sha384;
/// PKCS#1 v1.5 padding with SHA-512.
pub const RSA_PKCS1_SHA512: RsaEncoding = RsaEncoding::Pkcs1Sha512;
/// PSS padding with SHA-256, MGF1 with SHA-256 and a 32-byte salt.
pub const RSA_PSS_SHA256: RsaEncoding = RsaEncoding::PssSha256;
/// PSS padding with SHA-384, MGF1 with SHA-384 and a 48-byte salt.
pub const RSA_PSS_SHA384: RsaEncoding = RsaEncoding::PssSha384;
/// PSS padding with SHA-512, MGF1 with SHA-512 and a 64-byte salt.
pub const RSA_PSS_SHA512: RsaEncoding = RsaEncoding::PssSha512;

impl RsaEncoding {
    /// The digest algorithm of this encoding.
    pub open spec fn spec_digest_alg(self) -> DigestAlgorithm {
        match self {
            RsaEncoding::Pkcs1Sha256 | RsaEncoding::PssSha256 => DigestAlgorithm::Sha256,
            RsaEncoding::Pkcs1Sha384 | RsaEncoding::PssSha384 => DigestAlgorithm::Sha384,
            RsaEncoding::Pkcs1Sha512 | RsaEncoding::PssSha512 => DigestAlgorithm::Sha512,
        }
    }

    /// Whether this encoding is PSS rather than PKCS#1 v1.5.
    pub open spec fn is_pss(self) -> bool {
        self is PssSha256 || self is PssSha384 || self is PssSha512
    }

    /// The digest algorithm that the message is hashed with.
    pub fn digest_alg(&self) -> (r: DigestAlgorithm)
        ensures
            r == self.spec_digest_alg(),
    {
        match self {
            RsaEncoding::Pkcs1Sha256 | RsaEncoding::PssSha256 => DigestAlgorithm::Sha256,
            RsaEncoding::Pkcs1Sha384 | RsaEncoding::PssSha384 => DigestAlgorithm::Sha384,
            RsaEncoding::Pkcs1Sha512 | RsaEncoding::PssSha512 => DigestAlgorithm::Sha512,
        }
    }
}

/// The DER `DigestInfo` header that comes before a digest under `alg`.
pub open spec fn digest_info_prefix(alg: DigestAlgorithm) -> Seq<u8> {
    match alg {
        DigestAlgorithm::Sha256 => seq![0x30u8, 0x31, 0x30, 0x0d, 0x06, 0x09, 0x60, 0x86, 0x48,
            0x01, 0x65, 0x03, 0x04, 0x02, 0x01, 0x05, 0x00, 0x04, 0x20],
        DigestAlgorithm::Sha384 => seq![0x30u8, 0x41, 0x30, 0x0d, 0x06, 0x09, 0x60, 0x86, 0x48,
            0x01, 0x65, 0x03, 0x04, 0x02, 0x02, 0x05, 0x00, 0x04, 0x30],
        DigestAlgorithm::Sha512 => seq![0x30u8, 0x51, 0x30, 0x0d, 0x06, 0x09, 0x60, 0x86, 0x48,
            0x01, 0x65, 0x03, 0x04, 0x02, 0x03, 0x05, 0x00, 0x04, 0x40],
    }
}

fn digest_info_prefix_bytes(alg: DigestAlgorithm) -> (r: Vec<u8>)
    ensures
        r@ == digest_info_prefix(alg),
        r@.len() == 19,
{
    let r = match alg {
        DigestAlgorithm::Sha256 => vec![0x30u8, 0x31, 0x30, 0x0d, 0x06, 0x09, 0x60, 0x86, 0x48,
            0x01, 0x65, 0x03, 0x04, 0x02, 0x01, 0x05, 0x00, 0x04, 0x20],
        DigestAlgorithm::Sha384 => vec![0x30u8, 0x41, 0x30, 0x0d, 0x06, 0x09, 0x60, 0x86, 0x48,
            0x01, 0x65, 0x03, 0x04, 0x02, 0x02, 0x05, 0x00, 0x04, 0x30],
        DigestAlgorithm::Sha512 => vec![0x30u8, 0x51, 0x30, 0x0d, 0x06, 0x09, 0x60, 0x86, 0x48,
            0x01, 0x65, 0x03, 0x04, 0x02, 0x03, 0x05, 0x00, 0x04, 0x40],
    };
    assert(r@ =~= digest_info_prefix(alg));
    r
}

/// The EMSA-PKCS1-v1_5 encoding of digest `h` in `k` bytes:
/// `00 01 FF..FF 00 DigestInfo`.
pub open spec fn pkcs1_em(alg: DigestAlgorithm, h: Seq<u8>, k: nat) -> Seq<u8> {
    let t = digest_info_prefix(alg) + h;
    seq![0u8, 1u8] + Seq::new((k - 3 - t.len()) as nat, |i: int| 0xffu8) + seq![0u8] + t
}

/// Encodes the digest `m_hash` with PKCS#1 v1.5 padding into `k` bytes.
pub fn pkcs1_encode(alg: DigestAlgorithm, m_hash: &[u8], k: usize) -> (r: Vec<u8>)
    requires
        m_hash@.len() == output_len_of(alg),
        k >= 19 + output_len_of(alg) + 11,
    ensures
        r@ == pkcs1_em(alg, m_hash@, k as nat),
        r@.len() == k,
{
    let hl = alg.output_len();
    let mut r: Vec<u8> = vec![0u8, 1u8];
    let mut ps = filled(k - 3 - 19 - hl, 0xff);
    r.append(&mut ps);
    r.push(0u8);
    let mut t = digest_info_prefix_bytes(alg);
    let mut i: usize = 0;
    while i < hl
        invariant
            i <= hl == m_hash@.len(),
            t@ == digest_info_prefix(alg) + m_hash@.subrange(0, i as int),
        decreases hl - i,
    {
        t.push(m_hash[i]);
        i = i + 1;
        assert(t@ =~= digest_info_prefix(alg) + m_hash@.subrange(0, i as int));
    }
    assert(m_hash@.subrange(0, hl as int) =~= m_hash@);
    r.append(&mut t);
    assert(r@ =~= pkcs1_em(alg, m_hash@, k as nat));
    r
}

/// The four-byte big-endian encoding of a counter.
pub open spec fn be32(c: nat) -> Seq<u8> {
    seq![(c / 0x1000000 % 256) as u8, (c / 0x10000 % 256) as u8, (c / 0x100 % 256) as u8,
        (c % 256) as u8]
}

/// The first `count` blocks of MGF1 output on `seed`.
pub open spec fn mgf1_blocks(alg: DigestAlgorithm, seed: Seq<u8>, count: nat) -> Seq<u8>
    decreases count,
{
    if count == 0 {
        Seq::empty()
    } else {
        mgf1_blocks(alg, seed, (count - 1) as nat) + digest_of(alg, seed + be32((count - 1) as nat))
    }
}

/// The number of digest blocks that cover `len` bytes.
pub open spec fn blocks_for(alg: DigestAlgorithm, len: nat) -> nat {
    ((len + output_len_of(alg) - 1) as nat / output_len_of(alg)) as nat
}

/// MGF1 with `alg`: a mask of `len` bytes generated from `seed`.
pub open spec fn mgf1(alg: DigestAlgorithm, seed: Seq<u8>, len: nat) -> Seq<u8> {
    mgf1_blocks(alg, seed, blocks_for(alg, len)).subrange(0, len as int)
}

/// `seed` followed by the four-byte encoding of the counter `c`.
fn seed_and_counter(seed: &Vec<u8>, c: usize) -> (r: Vec<u8>)
    requires
        c < 0x1_0000_0000,
    ensures
        r@ == seed@ + be32(c as nat),
{
    let mut r: Vec<u8> = Vec::new();
    let mut i: usize = 0;
    while i < seed.len()
        invariant
            i <= seed@.len(),
            r@ == seed@.subrange(0, i as int),
        decreases seed@.len() - i,
    {
        r.push(seed[i]);
        i = i + 1;
        assert(r@ =~= seed@.subrange(0, i as int));
    }
    r.push((c / 0x1000000 % 256) as u8);
    r.push((c / 0x10000 % 256) as u8);
    r.push((c / 0x100 % 256) as u8);
    r.push((c % 256) as u8);
    assert(r@ =~= seed@ + be32(c as nat));
    r
}

/// The MGF1 mask of `len` bytes on `seed`.
pub fn mgf1_mask(alg: DigestAlgorithm, seed: &Vec<u8>, len: usize) -> (r: Vec<u8>)
    requires
        len < 0x1000_0000,
    ensures
        r@ == mgf1(alg, seed@, len as nat),
        r@.len() == len,
{
    let hl = alg.output_len();
    let count = (len + hl - 1) / hl;
    let mut out: Vec<u8> = Vec::new();
    let mut c: usize = 0;
    assert(count * hl >= len && count <= len) by (nonlinear_arith)
        requires
            count as int == (len as int + hl as int - 1) / (hl as int),
            hl >= 1,
    ;
    while c < count
        invariant
            c <= count <= len < 0x1000_0000,
            hl == output_len_of(alg),
            out@ == mgf1_blocks(alg, seed@, c as nat),
            out@.len() == c * hl,
        decreases count - c,
    {
        let block = seed_and_counter(seed, c);
        let mut h = digest(alg, block.as_slice());
        out.append(&mut h);
        assert((c + 1) * hl == c * hl + hl) by (nonlinear_arith);
        c = c + 1;
    }
    out.truncate(len);
    assert(count as nat == blocks_for(alg, len as nat));
    out
}

/// `0xff` shifted right past the bits of the encoded message's top byte that
/// lie above `em_bits`.
pub open spec fn top_byte_mask(em_bits: nat, em_len: nat) -> u8 {
    0xffu8 >> ((8 * em_len - em_bits) as u8)
}

/// `db ^ mask`, with the top byte cut by `tm`.
pub open spec fn masked_db(db: Seq<u8>, mask: Seq<u8>, tm: u8) -> Seq<u8> {
    Seq::new(db.len(), |i: int| if i == 0 { (db[i] ^ mask[i]) & tm } else { db[i] ^ mask[i] })
}

/// The EMSA-PSS encoding of digest `m_hash` with `salt`, for a modulus of
/// `mod_bits` bits, written in as many bytes as the modulus.
pub open spec fn pss_em(alg: DigestAlgorithm, m_hash: Seq<u8>, salt: Seq<u8>, mod_bits: nat) -> Seq<u8> {
    let h_len = output_len_of(alg);
    let em_bits = (mod_bits - 1) as nat;
    let em_len = (em_bits + 7) / 8;
    let db_len = (em_len - h_len - 1) as nat;
    let hh = digest_of(alg, Seq::new(8, |i: int| 0u8) + m_hash + salt);
    let db = Seq::new((db_len - salt.len() - 1) as nat, |i: int| 0u8) + seq![1u8] + salt;
    let em = masked_db(db, mgf1(alg, hh, db_len), top_byte_mask(em_bits, em_len)) + hh + seq![0xbcu8];
    if em_bits % 8 == 0 {
        seq![0u8] + em
    } else {
        em
    }
}

/// `a` followed by `b`.
fn concat(a: &[u8], b: &[u8]) -> (r: Vec<u8>)
    ensures
        r@ == a@ + b@,
{
    let mut r: Vec<u8> = Vec::new();
    let mut i: usize = 0;
    while i < a.len()
        invariant
            i <= a@.len(),
            r@ == a@.subrange(0, i as int),
        decreases a@.len() - i,
    {
        r.push(a[i]);
        i = i + 1;
        assert(r@ =~= a@.subrange(0, i as int));
    }
    let mut j: usize = 0;
    while j < b.len()
        invariant
            j <= b@.len(),
            r@ == a@ + b@.subrange(0, j as int),
        decreases b@.len() - j,
    {
        proof {
            if j == 0 {
                assert(a@.subrange(0, a@.len() as int) =~= a@);
            }
        }
        r.push(b[j]);
        j = j + 1;
        assert(r@ =~= a@ + b@.subrange(0, j as int));
    }
    assert(b@.subrange(0, b@.len() as int) =~= b@);
    assert(a@.subrange(0, a@.len() as int) =~= a@);
    r
}

/// `db ^ mask` with the top byte cut by `tm`.
fn mask_db(db: &Vec<u8>, mask: &Vec<u8>, tm: u8) -> (r: Vec<u8>)
    requires
        db@.len() == mask@.len(),
    ensures
        r@ == masked_db(db@, mask@, tm),
{
    let mut r: Vec<u8> = Vec::new();
    let mut i: usize = 0;
    while i < db.len()
        invariant
            i <= db@.len() == mask@.len(),
            r@ == masked_db(db@, mask@, tm).subrange(0, i as int),
        decreases db@.len() - i,
    {
        let b = if i == 0 { (db[i] ^ mask[i]) & tm } else { db[i] ^ mask[i] };
        r.push(b);
        i = i + 1;
        assert(r@ =~= masked_db(db@, mask@, tm).subrange(0, i as int));
    }
    assert(masked_db(db@, mask@, tm).subrange(0, i as int) =~= masked_db(db@, mask@, tm));
    r
}

/// Encodes the digest `m_hash` with PSS padding and the given `salt`, for a
/// modulus of `mod_bits` bits.
pub fn pss_encode(alg: DigestAlgorithm, m_hash: &[u8], salt: &[u8], mod_bits: usize) -> (r: Vec<u8>)
    requires
        m_hash@.len() == output_len_of(alg),
        salt@.len() == output_len_of(alg),
        mod_bits <= 0x10000,
        (mod_bits + 6) / 8 >= 2 * output_len_of(alg) + 2,
    ensures
        r@ == pss_em(alg, m_hash@, salt@, mod_bits as nat),
        r@.len() == (mod_bits as nat + 7) / 8,
{
    let hl = alg.output_len();
    let em_bits = mod_bits - 1;
    let em_len = (em_bits + 7) / 8;
    let db_len = em_len - hl - 1;
    let zeros = filled(8, 0u8);
    let mp0 = concat(zeros.as_slice(), m_hash);
    let mp = concat(mp0.as_slice(), salt);
    let hh = digest(alg, mp.as_slice());
    let mut ps = filled(db_len - hl - 1, 0u8);
    ps.push(1u8);
    let db = concat(ps.as_slice(), salt);
    let mask = mgf1_mask(alg, &hh, db_len);
    let tm: u8 = 0xffu8 >> ((8 * em_len - em_bits) as u8);
    let mdb = mask_db(&db, &mask, tm);
    let body = concat(mdb.as_slice(), hh.as_slice());
    let mut em: Vec<u8> = Vec::new();
    if em_bits % 8 == 0 {
        em.push(0u8);
    }
    let mut em = concat(em.as_slice(), body.as_slice());
    em.push(0xbcu8);
    proof {
        let z8 = Seq::new(8, |i: int| 0u8);
        assert(zeros@ =~= z8);
        assert(mp@ =~= z8 + m_hash@ + salt@);
        assert(db@ =~= Seq::new((db_len - salt@.len() - 1) as nat, |i: int| 0u8) + seq![1u8] + salt@);
    }
    assert(em@ =~= pss_em(alg, m_hash@, salt@, mod_bits as nat));
    em
}

/// `em` is an encoding of digest `m_hash` under `alg` for a modulus of
/// `mod_bits` bits: the PKCS#1 v1.5 one, or the PSS one with some salt as
/// long as the digest.
pub open spec fn is_encoding(alg: RsaEncoding, m_hash: Seq<u8>, mod_bits: nat, em: Seq<u8>) -> bool {
    if alg.is_pss() {
        exists|salt: Seq<u8>|
            salt.len() == output_len_of(alg.spec_digest_alg())
            && em == #[trigger] pss_em(alg.spec_digest_alg(), m_hash, salt, mod_bits)
    } else {
        em == pkcs1_em(alg.spec_digest_alg(), m_hash, (mod_bits + 7) / 8)
    }
}

/// A modulus of `mod_bits` bits leaves room for an encoding under `alg`:
/// 11 bytes beyond the `DigestInfo` for PKCS#1 v1.5, and twice the digest
/// plus two bytes for PSS.
pub open spec fn encoding_fits(alg: RsaEncoding, mod_bits: nat) -> bool {
    if alg.is_pss() {
        (mod_bits + 6) / 8 >= 2 * output_len_of(alg.spec_digest_alg()) + 2
    } else {
        (mod_bits + 7) / 8 >= 19 + output_len_of(alg.spec_digest_alg()) + 11
    }
}

impl RsaEncoding {
    /// Encodes the digest `m_hash` for a modulus of `mod_bits` bits, in as
    /// many bytes as the modulus. It fails when the modulus leaves no room
    /// for the encoding; otherwise PKCS#1 v1.5 succeeds, and PSS draws its
    /// salt from `rng` and fails only when `rng` does.
    pub fn encode<R: SecureRandom>(&self, m_hash: &[u8], mod_bits: usize, rng: &R) -> (r: Result<Vec<u8>, Unspecified>)
        requires
            m_hash@.len() == output_len_of(self.spec_digest_alg()),
            mod_bits <= 0x10000,
        ensures
            r matches Ok(em) ==> is_encoding(*self, m_hash@, mod_bits as nat, em@)
                && em@.len() == (mod_bits as nat + 7) / 8,
            !encoding_fits(*self, mod_bits as nat) ==> r is Err,
            encoding_fits(*self, mod_bits as nat) && !self.is_pss() ==> r is Ok,
    {
        let alg = self.digest_alg();
        let hl = alg.output_len();
        let fits = match self {
            RsaEncoding::Pkcs1Sha256 | RsaEncoding::Pkcs1Sha384 | RsaEncoding::Pkcs1Sha512 =>
                (mod_bits + 7) / 8 >= 19 + hl + 11,
            _ => (mod_bits + 6) / 8 >= 2 * hl + 2,
        };
        if !fits {
            return Err(Unspecified);
        }
        match self {
            RsaEncoding::Pkcs1Sha256 | RsaEncoding::Pkcs1Sha384 | RsaEncoding::Pkcs1Sha512 => {
                Ok(pkcs1_encode(alg, m_hash, (mod_bits + 7) / 8))
            },
            _ => {
                let mut salt = filled(alg.output_len(), 0u8);
                match rng.fill(&mut salt) {
                    Ok(()) => {},
                    Err(e) => { return Err(e); },
                }
                let em = pss_encode(alg, m_hash, salt.as_slice(), mod_bits);
                assert(salt@.len() == output_len_of(self.spec_digest_alg())
                    && em@ == pss_em(alg, m_hash@, salt@, mod_bits as nat));
                Ok(em)
            },
        }
    }
}

} // verus!
