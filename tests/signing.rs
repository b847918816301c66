//! Signing with a 2048-bit key, checked against the `rsa` crate's verifier.
#![allow(dead_code)]

use std::sync::Arc;

use num_bigint::BigUint;
use rsa::pkcs1::DecodeRsaPrivateKey;
use rsa::{Pkcs1v15Sign, Pss, RsaPrivateKey};
use sha2::{Digest, Sha256, Sha384, Sha512};
use rsa_signing::arith::{is_odd, is_one, is_zero, mod_mul, to_fixed_be};
use rsa_signing::blinding::{accept_candidate, blinded_inverse_with, regeneration_step, Blinding,
    InversionError, Regeneration, REGENERATION_ATTEMPTS, REMAINING_MAX};
use rsa_signing::der::{read_positive, read_tlv};
use rsa_signing::digest::{digest, DigestAlgorithm};
use rsa_signing::padding::{mgf1_mask, pkcs1_encode, pss_encode};
use rsa_signing::padding::{RsaEncoding, RSA_PKCS1_SHA256, RSA_PKCS1_SHA384, RSA_PKCS1_SHA512,
    RSA_PSS_SHA256, RSA_PSS_SHA384, RSA_PSS_SHA512};
use rsa_signing::rand::SystemRandom;
use rsa_signing::signing::{RSAKeyPair, RSASigningState};
use rsa_signing::rand::SecureRandom;
use rsa_signing::Unspecified;

/// A 2048-bit two-prime RSA private key in DER `RSAPrivateKey` form, as hex.
const EXAMPLE_KEY_HEX: &[&str] = &[
    "308204a30201000282010100b6c42c515f10a6aaf282c63edbe24243a170f3fa2633bd4833637f47ca4f6f36e03a5d29",
    "efc3191ac80f390d874b39e30f414fcec1fca0ed81e547edc2cd382c76f61c9018973db9fa537972a7c701f6b77e0982",
    "dfc15fc01927ee5e7cd94b4f599ff07013a7c8281bdf22dcbc9ad7cabb7c4311c982f58edb7213ad4558b332266d743a",
    "ed8192d1884cadb8b14739a8dada66dc970806d9c7ac450cb13d0d7c575fb198534fc61bc41bc0f0574e0e0130c7bbbf",
    "bdfdc9f6a6e2e3e2aff1cbeac89ba57884528d55cfb08327a1e8c89f4e003cf2888e933241d9d695bcbbacdc90b44e3e",
    "095fa37058ea25b13f5e295cbeac6de838ab8c50af61e298975b872f0203010001028201007ecc8362c0edb074116421",
    "5e22f74ab9d91ba06900700cf63690e5114d8ee6bdcfbb2e3f9614692a677a083f168a5e52e5968e6407b9d97c6e0e40",
    "64f82da0b758a14f17b9b7d41f5f48e28d6551704f56e69e7aa9fa630fc76428c06d25e455dcfc55b7ac2b4f76643fde",
    "d3fe15ff78abb27e65acc4aad0bdf6db27ef60a6910c5c4a085ed43275ab19c1d997a32c6effce7df2d1935f6e601eed",
    "e161a12b5cc27ca21f81d2c99c3d1ea08e90e3053ab09befa724def0d0c3a3c1e9740c0d9f76126a149ec0aa7d807820",
    "5484254d951db07c4cf91fb6454c096588fd5924dbabeb359ca2025268d004f9d66eb3d6f7adc1139bad40f16dde639e",
    "11647376c102818100dcc061242d4e92afaee72ac513ca65b9f77036f9bd7e0e6e61461a7ef7654225ec153c7e5c31a6",
    "157a6e5a13ff6e178e8758c1cb33d9d6bbe3179ef18998e422ecdcbed78f4ecfdbe5f4fcd8aec2c9d0dc86473ca9bd16",
    "d9d238d21fb5ddefbeb143ca61d0bd6aa8d91f33a097790e9640dbc91085dc5f26343ba3138f6b2d6702818100d3f314",
    "757e40e954836f92be24236af2f0da04a34653c180af67e960086d93fde65cb23efd9d09374762f5981e361849af68cd",
    "d75394ff6a4e06eb69b209e4228db2dfa70e40f7f9750a528176647b788d0e5777a2cb8b22e3cd267ff70b4f3b02d3aa",
    "fb0e18c590a564b03188b0aa5fc48156b07622214243bd1227efa7f2f902818100ce68b7ac1b0d100d636e55488753c5",
    "c09843fdb390e2705df7689457c9bd8d9765e30978617e2efc8048f4c324206db86087b654e97bb3d464e7ee3f8cd83f",
    "e10436f7df18e9a963c4e64911d67ede34042f2e26e3d3a1ad346adad6b9b7f67708cb094e62dee9ff4d5d6669af988a",
    "f2255d1ce8ed317c6a7d8691da354d12db02818025f6e5944220286b4dfbbf4235c0ee5843d2198091895120d6ca7b20",
    "0b826d3ece738e2e00498fac0a2a6ca969c7f0c3ca1ab0bc40297132be7538d7bedf4cb0efc6b98ef7dba54f56aa99aa",
    "bce534c49c27947d4678c51c63c78c7ce1687231b4c8eb587ae6ef0480cbaf4fc0173cfd587a7e67af515fb9b9de7511",
    "1839722902818031995406d406207cadeaea35b38d040c5f8a9a1ae0827e9ed06b153d83b6821935b4b36a82be9d56c7",
    "91b58c27271a5793d53a1d657c08997960b1433e5171987f452f144a7c72306d63e1d3ffc0b71b75ab08f2e45a482e98",
    "8451cbe478e12eb228d07456c924b66f6ced048d853f533e31a68614f1c3ce6d8ec9983ce72af7",
];

pub fn hex(s: &str) -> Vec<u8> {
    (0..s.len() / 2).map(|i| u8::from_str_radix(&s[2 * i..2 * i + 2], 16).unwrap()).collect()
}

pub fn example_key_der() -> Vec<u8> {
    hex(&EXAMPLE_KEY_HEX.concat())
}

/// A generator that returns the same byte every time.
pub struct FixedByteRandom {
    pub byte: u8,
}

impl SecureRandom for FixedByteRandom {
    fn fill(&self, dest: &mut Vec<u8>) -> Result<(), Unspecified> {
        for b in dest.iter_mut() {
            *b = self.byte;
        }
        Ok(())
    }
}

/// A generator that gives `salt` whenever exactly that many bytes are asked
/// for, and random bytes otherwise.
pub struct DeterministicSalt<'a, R: SecureRandom> {
    pub salt: &'a [u8],
    pub rng: &'a R,
}

impl<'a, R: SecureRandom> SecureRandom for DeterministicSalt<'a, R> {
    fn fill(&self, dest: &mut Vec<u8>) -> Result<(), Unspecified> {
        if dest.len() != self.salt.len() {
            self.rng.fill(dest)?;
        } else {
            dest.copy_from_slice(self.salt);
        }
        Ok(())
    }
}

/// A generator that always fails.
pub struct FailingRandom;

impl SecureRandom for FailingRandom {
    fn fill(&self, _dest: &mut Vec<u8>) -> Result<(), Unspecified> {
        Err(Unspecified)
    }
}

fn der_len(l: usize) -> Vec<u8> {
    if l < 128 {
        vec![l as u8]
    } else if l < 256 {
        vec![0x81, l as u8]
    } else {
        vec![0x82, (l >> 8) as u8, l as u8]
    }
}

fn tlv(tag: u8, content: &[u8]) -> Vec<u8> {
    let mut out = vec![tag];
    out.extend(der_len(content.len()));
    out.extend_from_slice(content);
    out
}

fn der_int(v: &BigUint) -> Vec<u8> {
    let mut c = v.to_bytes_be();
    if c[0] & 0x80 != 0 {
        c.insert(0, 0);
    }
    tlv(0x02, &c)
}

fn split_tlv(b: &[u8], i: usize) -> (u8, usize, usize) {
    let tag = b[i];
    let first = b[i + 1] as usize;
    if first < 0x80 {
        (tag, i + 2, i + 2 + first)
    } else {
        let n = first & 0x7f;
        let mut l = 0usize;
        for k in 0..n {
            l = (l << 8) | b[i + 2 + k] as usize;
        }
        (tag, i + 2 + n, i + 2 + n + l)
    }
}

/// The integers `n, e, d, p, q, dmp1, dmq1, iqmp` of a DER key.
pub fn key_values(der: &[u8]) -> Vec<BigUint> {
    let (_, s, e) = split_tlv(der, 0);
    let mut pos = s;
    let mut vals = Vec::new();
    while pos < e {
        let (_, cs, ce) = split_tlv(der, pos);
        vals.push(BigUint::from_bytes_be(&der[cs..ce]));
        pos = ce;
    }
    vals.remove(0);
    vals
}

/// A DER key with the given `version` and integers.
pub fn key_der(version: u8, vals: &[BigUint]) -> Vec<u8> {
    let mut body = tlv(0x02, &[version]);
    for v in vals {
        body.extend(der_int(v));
    }
    tlv(0x30, &body)
}

const MESSAGE: &[u8] = b"hello, world";

fn example_key_pair() -> Arc<RSAKeyPair> {
    Arc::new(RSAKeyPair::from_der(&example_key_der()).unwrap())
}

fn reference_key() -> RsaPrivateKey {
    RsaPrivateKey::from_pkcs1_der(&example_key_der()).unwrap()
}

fn sign_once(alg: &RsaEncoding, rng: &impl SecureRandom, msg: &[u8]) -> Result<Vec<u8>, Unspecified> {
    let mut state = RSASigningState::new(example_key_pair()).unwrap();
    let mut sig = vec![0u8; state.key_pair().public_modulus_len()];
    state.sign(alg, rng, msg, &mut sig)?;
    Ok(sig)
}

/// Keys that break one check each.
fn invalid_keys() -> Vec<Vec<u8>> {
    let der = example_key_der();
    let v = key_values(&der);
    let two = BigUint::from(2u32);
    let mut out = Vec::new();
    // Wrong version.
    out.push(key_der(1, &v));
    // Modulus too small: a 1024-bit prime pair is replaced by its halves.
    let mut small = v.clone();
    small[0] = &v[0] >> 1100usize;
    out.push(key_der(0, &small));
    // `q >= p`.
    let mut swapped = v.clone();
    swapped.swap(3, 4);
    out.push(key_der(0, &swapped));
    // `p * q` is not a multiple of `n`.
    let mut bad_p = v.clone();
    bad_p[3] = &v[3] + &two;
    out.push(key_der(0, &bad_p));
    // `iqmp * q` is not 1 mod `p`.
    let mut bad_iqmp = v.clone();
    bad_iqmp[7] = &v[7] + &two;
    out.push(key_der(0, &bad_iqmp));
    // `dmp1 >= p`.
    let mut bad_dmp1 = v.clone();
    bad_dmp1[5] = &v[3] + &two;
    out.push(key_der(0, &bad_dmp1));
    // `dmq1 >= q`.
    let mut bad_dmq1 = v.clone();
    bad_dmq1[6] = &v[4] + &two;
    out.push(key_der(0, &bad_dmq1));
    // Even public exponent.
    let mut even_e = v.clone();
    even_e[1] = BigUint::from(65536u32);
    out.push(key_der(0, &even_e));
    // Trailing data after the key.
    let mut trailing = der.clone();
    trailing.push(0);
    out.push(trailing);
    // Truncated key.
    out.push(der[..der.len() - 1].to_vec());
    // Empty input.
    out.push(Vec::new());
    out
}

#[test]
fn test_signature_rsa_pkcs1_sign() {
    let rng = SystemRandom::new();
    let reference = reference_key();
    let cases: [(&RsaEncoding, Vec<u8>, Vec<u8>); 3] = [
        (&RSA_PKCS1_SHA256, Sha256::digest(MESSAGE).to_vec(), Pkcs1v15Sign::new::<Sha256>().prefix.to_vec()),
        (&RSA_PKCS1_SHA384, Sha384::digest(MESSAGE).to_vec(), Pkcs1v15Sign::new::<Sha384>().prefix.to_vec()),
        (&RSA_PKCS1_SHA512, Sha512::digest(MESSAGE).to_vec(), Pkcs1v15Sign::new::<Sha512>().prefix.to_vec()),
    ];
    let schemes = [Pkcs1v15Sign::new::<Sha256>(), Pkcs1v15Sign::new::<Sha384>(), Pkcs1v15Sign::new::<Sha512>()];
    for ((alg, hashed, _), scheme) in cases.iter().zip(schemes.into_iter()) {
        let expected = reference.sign(scheme, hashed).unwrap();
        let actual = sign_once(alg, &rng, MESSAGE).unwrap();
        assert_eq!(actual, expected);
    }
    for der in invalid_keys() {
        assert_eq!(RSAKeyPair::from_der(&der).err(), Some(Unspecified));
    }
}

#[test]
fn test_signature_rsa_pkcs1_sign_round_trip() {
    let rng = SystemRandom::new();
    let sig = sign_once(&RSA_PKCS1_SHA256, &rng, MESSAGE).unwrap();
    let public = reference_key().to_public_key();
    let hashed = Sha256::digest(MESSAGE);
    assert!(public.verify(Pkcs1v15Sign::new::<Sha256>(), &hashed, &sig).is_ok());
    let other = Sha256::digest(b"hello, world!");
    assert!(public.verify(Pkcs1v15Sign::new::<Sha256>(), &other, &sig).is_err());
}

#[test]
fn test_signature_rsa_pkcs1_sign_output_buffer_len() {
    let rng = SystemRandom::new();
    let key_pair = example_key_pair();
    assert_eq!(key_pair.public_modulus_len(), 256);
    let mut signing_state = RSASigningState::new(key_pair).unwrap();

    // The output buffer is one byte too short.
    let mut signature = vec![0; signing_state.key_pair().public_modulus_len() - 1];
    assert!(signing_state.sign(&RSA_PKCS1_SHA256, &rng, MESSAGE, &mut signature).is_err());
    assert_eq!(signature, vec![0; 255]);

    // The output buffer is the right length.
    signature.push(0);
    assert!(signing_state.sign(&RSA_PKCS1_SHA256, &rng, MESSAGE, &mut signature).is_ok());

    // The output buffer is one byte too long.
    signature.push(0);
    assert!(signing_state.sign(&RSA_PKCS1_SHA256, &rng, MESSAGE, &mut signature).is_err());
}

#[test]
fn test_signature_rsa_pkcs1_sign_blinding_reuse() {
    let rng = SystemRandom::new();
    let key_pair = example_key_pair();
    let mut signature = vec![0; key_pair.public_modulus_len()];
    let mut signing_state = RSASigningState::new(key_pair).unwrap();
    assert_eq!(signing_state.blinding().remaining(), 0);
    for i in 0..(REMAINING_MAX + 1) {
        let prev_remaining = signing_state.blinding().remaining();
        assert!(signing_state.sign(&RSA_PKCS1_SHA256, &rng, MESSAGE, &mut signature).is_ok());
        let remaining = signing_state.blinding().remaining();
        assert_eq!((remaining + 1) % REMAINING_MAX, prev_remaining);
        assert_eq!(remaining, REMAINING_MAX - 1 - (i % REMAINING_MAX));
    }
}

#[test]
fn test_signature_rsa_pkcs1_sign_blinding_creation_failure() {
    // Every candidate blinding factor is 0, which has no inverse.
    let rng = FixedByteRandom { byte: 0x00 };
    let key_pair = example_key_pair();
    let mut signing_state = RSASigningState::new(key_pair).unwrap();
    let mut signature = vec![0; signing_state.key_pair().public_modulus_len()];
    let result = signing_state.sign(&RSA_PKCS1_SHA256, &rng, MESSAGE, &mut signature);
    assert!(result.is_err());
    assert_eq!(signing_state.blinding().remaining(), 0);
}

#[test]
fn test_signature_rsa_sign_rng_failure() {
    let mut signing_state = RSASigningState::new(example_key_pair()).unwrap();
    let mut signature = vec![7; 256];
    assert_eq!(signing_state.sign(&RSA_PKCS1_SHA256, &FailingRandom, MESSAGE, &mut signature), Err(Unspecified));
    assert_eq!(signature, vec![7; 256]);
    assert_eq!(signing_state.sign(&RSA_PSS_SHA256, &FailingRandom, MESSAGE, &mut signature), Err(Unspecified));
}

#[test]
fn test_signature_rsa_pss_sign() {
    let rng = SystemRandom::new();
    let public = reference_key().to_public_key();
    let algs: [(&RsaEncoding, usize); 3] = [(&RSA_PSS_SHA256, 32), (&RSA_PSS_SHA384, 48), (&RSA_PSS_SHA512, 64)];
    for (alg, salt_len) in algs {
        let salt: Vec<u8> = (0..salt_len).map(|i| (i * 7 + 1) as u8).collect();
        let new_rng = DeterministicSalt { salt: &salt, rng: &rng };
        let first = sign_once(alg, &new_rng, MESSAGE).unwrap();
        let second = sign_once(alg, &new_rng, MESSAGE).unwrap();
        // With the salt fixed the signature is fixed too.
        assert_eq!(first, second);
        let ok = match salt_len {
            32 => public.verify(Pss::new::<Sha256>(), &Sha256::digest(MESSAGE), &first),
            48 => public.verify(Pss::new::<Sha384>(), &Sha384::digest(MESSAGE), &first),
            _ => public.verify(Pss::new::<Sha512>(), &Sha512::digest(MESSAGE), &first),
        };
        assert!(ok.is_ok());
    }
}

#[test]
fn test_signature_rsa_pss_encoding_vector() {
    // The encoded message with a fixed salt, raised to `e`, is what the
    // signature gives back.
    let rng = SystemRandom::new();
    let salt = [0x5au8; 32];
    let new_rng = DeterministicSalt { salt: &salt, rng: &rng };
    let sig = sign_once(&RSA_PSS_SHA256, &new_rng, MESSAGE).unwrap();
    let v = key_values(&example_key_der());
    let em = BigUint::from_bytes_be(&sig).modpow(&v[1], &v[0]).to_bytes_be();
    let m_hash = Sha256::digest(MESSAGE).to_vec();
    let expected = pss_encode(DigestAlgorithm::Sha256, &m_hash, &salt, 2048);
    assert_eq!(expected.len(), 256);
    assert_eq!(expected[255], 0xbc);
    assert!(expected[0] < 0x80);
    assert_eq!(em, BigUint::from_bytes_be(&expected).to_bytes_be());
}

#[test]
fn test_pkcs1_encoding() {
    let m_hash = vec![0xabu8; 32];
    let em = pkcs1_encode(DigestAlgorithm::Sha256, &m_hash, 64);
    assert_eq!(em.len(), 64);
    assert_eq!(&em[..2], &[0x00, 0x01]);
    assert!(em[2..12].iter().all(|b| *b == 0xff));
    assert_eq!(em[12], 0x00);
    assert_eq!(&em[13..15], &[0x30, 0x31]);
    assert_eq!(&em[32..], &m_hash[..]);
}

#[test]
fn test_digest_lengths() {
    assert_eq!(digest(DigestAlgorithm::Sha256, b"abc"), hex("ba7816bf8f01cfea414140de5dae2223b00361a396177a9cb410ff61f20015ad"));
    assert_eq!(digest(DigestAlgorithm::Sha384, b"abc"), hex("cb00753f45a35e8bb5a03d699ac65007272c32ab0eded1631a8b605a43ff5bed8086072ba1e7cc2358baeca134c825a7"));
    assert_eq!(digest(DigestAlgorithm::Sha512, b"abc"), hex("ddaf35a193617abacc417349ae20413112e6fa4e89a97ea20a9eeee64b55d39a2192992a274fc1a836ba3c23a3feebbd454d4423643ce80e2a9ac94fa54ca49f"));
    assert_eq!(DigestAlgorithm::Sha384.output_len(), 48);
}

#[test]
fn test_mgf1_mask() {
    let seed = vec![1u8, 2, 3];
    let mask = mgf1_mask(DigestAlgorithm::Sha256, &seed, 40);
    let mut first = seed.clone();
    first.extend_from_slice(&[0, 0, 0, 0]);
    let mut second = seed.clone();
    second.extend_from_slice(&[0, 0, 0, 1]);
    let mut expected = Sha256::digest(&first).to_vec();
    expected.extend_from_slice(&Sha256::digest(&second)[..8]);
    assert_eq!(mask, expected);
}

#[test]
fn test_arith() {
    assert_eq!(mod_mul(&vec![7], &vec![9], &vec![10]), vec![3]);
    assert_eq!(to_fixed_be(&vec![0, 0, 5], 4), Some(vec![0, 0, 0, 5]));
    assert_eq!(to_fixed_be(&vec![1, 0, 5], 2), None);
    assert_eq!(mod_mul(&vec![1, 0], &vec![3], &vec![1, 0, 0]), vec![3, 0]);
    assert_eq!(mod_mul(&vec![1, 0], &vec![1], &vec![7]), vec![4]);
    assert!(is_odd(&vec![2, 3]) && !is_odd(&vec![3, 2]) && !is_odd(&vec![]));
    assert!(is_zero(&vec![0, 0]) && !is_zero(&vec![0, 1]));
    assert!(is_one(&vec![0, 1]) && !is_one(&vec![1, 1]));
}

#[test]
fn test_system_random_fills() {
    let rng = SystemRandom::new();
    let mut a = vec![0u8; 32];
    let mut b = vec![0u8; 32];
    assert!(rng.fill(&mut a).is_ok());
    assert!(rng.fill(&mut b).is_ok());
    assert_eq!(a.len(), 32);
    assert_ne!(a, b);
    assert_ne!(a, vec![0u8; 32]);
}

#[test]
fn test_der_reader() {
    // A positive INTEGER whose top bit is set carries a leading zero byte.
    let input = [0x02u8, 0x02, 0x00, 0x80, 0x02, 0x01, 0x7f];
    assert_eq!(read_positive(&input, 0), Some((vec![0x80], 4)));
    assert_eq!(read_positive(&input, 4), Some((vec![0x7f], 7)));
    // Negative, zero and non-minimal INTEGERs are refused.
    assert_eq!(read_positive(&[0x02, 0x01, 0x80], 0), None);
    assert_eq!(read_positive(&[0x02, 0x01, 0x00], 0), None);
    assert_eq!(read_positive(&[0x02, 0x02, 0x00, 0x7f], 0), None);
    // Long-form lengths must be minimal too.
    assert_eq!(read_tlv(&[0x04, 0x81, 0x05, 1, 2, 3, 4, 5], 0, 0x04), None);
    let mut long = vec![0x04u8, 0x81, 0x80];
    long.extend(vec![0u8; 0x80]);
    assert_eq!(read_tlv(&long, 0, 0x04), Some((3, 0x83)));
    let mut longer = vec![0x04u8, 0x82, 0x01, 0x00];
    longer.extend(vec![0u8; 0x100]);
    assert_eq!(read_tlv(&longer, 0, 0x04), Some((4, 0x104)));
    assert_eq!(read_tlv(&longer, 0, 0x05), None);
    assert_eq!(read_tlv(&longer[..0x100], 0, 0x04), None);
}

#[test]
fn test_sync_and_send() {
    let key_pair = example_key_pair();
    let _: &dyn Send = &key_pair;
    let _: &dyn Sync = &key_pair;
    let signing_state = RSASigningState::new(key_pair).unwrap();
    let _: &dyn Send = &signing_state;
}

#[test]
fn test_blinding_blind_small_key() {
    // n = 61 * 53, e = 17, d = 2753: 2790^d mod n = 65.
    let n = vec![0x0c, 0xa1];
    let e = vec![17];
    let d = vec![0x0a, 0xc1];
    let rng = SystemRandom::new();
    let mut blinding = Blinding::new();
    assert_eq!(blinding.remaining(), 0);
    for i in 0..(REMAINING_MAX + 2) {
        let y = blinding.blind(vec![0x0a, 0xe6], &e, &n, &rng, |z: Vec<u8>| {
            let nb = BigUint::from_bytes_be(&n);
            Ok(BigUint::from_bytes_be(&z).modpow(&BigUint::from_bytes_be(&d), &nb).to_bytes_be())
        }).unwrap();
        assert_eq!(y, vec![65]);
        assert_eq!(blinding.remaining(), REMAINING_MAX - 1 - (i % REMAINING_MAX));
    }
    // A failing operation leaves the state empty.
    assert!(blinding.blind(vec![5], &e, &n, &rng, |_z: Vec<u8>| Err(Unspecified)).is_err());
    assert_eq!(blinding.remaining(), 0);
    // A generator that always fails stops regeneration.
    assert!(blinding.blind(vec![5], &e, &n, &FailingRandom, |z: Vec<u8>| Ok(z)).is_err());
}

#[test]
fn test_three_n_key_rejected() {
    // With a 2049-bit modulus the size and divisibility checks alone would
    // also pass when `p * q = 3n`; the exact product check refuses it.
    let one = BigUint::from(1u32);
    let p = (&one << 1025usize) - BigUint::from(5u32);
    let q = ((&one << 1025usize) * BigUint::from(4u32)) / BigUint::from(5u32);
    assert_eq!(&q % BigUint::from(2u32), one);
    let three = BigUint::from(3u32);
    let n = (&p * &q) / &three;
    assert_eq!(&n * &three, &p * &q);
    assert_eq!(n.bits(), 2049);
    let e = BigUint::from(65537u32);
    let d = &n - BigUint::from(2u32);
    let iqmp = q.modinv(&p).unwrap();
    let der = key_der(0, &[n, e, d, p, q, one.clone(), one.clone(), iqmp]);
    assert_eq!(RSAKeyPair::from_der(&der).err(), Some(Unspecified));
}

#[test]
fn test_regeneration_steps() {
    let n = vec![0x0c, 0xa1]; // 3233 = 61 * 53
    let e = vec![17];
    // Drawn bytes are cut by the mask and refused when not below `n`.
    assert_eq!(accept_candidate(vec![0xff, 0x00], 0x07, &n), Some(vec![0x07, 0x00]));
    assert_eq!(accept_candidate(vec![0xff, 0x00], 0x0f, &n), None);
    assert_eq!(accept_candidate(vec![0x0c, 0xa1], 0x0f, &n), None);
    // 7^-1 mod 3233 through the blinding value 2.
    let inv = blinded_inverse_with(&vec![7], &vec![2], &n).ok().unwrap();
    let inv_v = BigUint::from_bytes_be(&inv);
    assert_eq!((inv_v * 7u32) % 3233u32, BigUint::from(1u32));
    // 0 and multiples of a factor have no inverse.
    assert!(matches!(blinded_inverse_with(&vec![0], &vec![2], &n), Err(InversionError::NoInverse)));
    assert!(matches!(blinded_inverse_with(&vec![61], &vec![2], &n), Err(InversionError::NoInverse)));
    // An inverse gives the pair (r^e mod n, inverse).
    match regeneration_step(&vec![7], Ok(inv.clone()), 0, &e, &n) {
        Regeneration::Pair(a, a_inv) => {
            assert_eq!(BigUint::from_bytes_be(&a), BigUint::from(7u32).modpow(&BigUint::from(17u32), &BigUint::from(3233u32)));
            assert_eq!(a_inv, inv);
        },
        _ => panic!("expected a pair"),
    }
    assert!(matches!(regeneration_step(&vec![0], Err(InversionError::NoInverse), 0, &e, &n), Regeneration::Retry));
    assert!(matches!(regeneration_step(&vec![0], Err(InversionError::NoInverse), REGENERATION_ATTEMPTS - 1, &e, &n),
        Regeneration::GiveUp));
    assert!(matches!(regeneration_step(&vec![0], Err(InversionError::Other), 0, &e, &n), Regeneration::GiveUp));
}

#[test]
fn test_encode_needs_room() {
    let rng = SystemRandom::new();
    let h512 = vec![1u8; 64];
    assert!(RSA_PKCS1_SHA512.encode(&h512, 512, &rng).is_err());
    assert!(RSA_PKCS1_SHA512.encode(&h512, 1024, &rng).is_ok());
    let h256 = vec![1u8; 32];
    assert!(RSA_PSS_SHA256.encode(&h256, 520, &rng).is_err());
    assert_eq!(RSA_PSS_SHA256.encode(&h256, 530, &rng).unwrap().len(), 67);
}

#[test]
fn test_failed_sign_empties_blinding() {
    let rng = SystemRandom::new();
    let mut state = RSASigningState::new(example_key_pair()).unwrap();
    let mut sig = vec![0u8; 256];
    assert!(state.sign(&RSA_PKCS1_SHA256, &rng, MESSAGE, &mut sig).is_ok());
    assert_eq!(state.blinding().remaining(), REMAINING_MAX - 1);
    let mut short = vec![0u8; 255];
    assert!(state.sign(&RSA_PKCS1_SHA256, &rng, MESSAGE, &mut short).is_err());
    assert_eq!(state.blinding().remaining(), 0);
    assert!(state.sign(&RSA_PKCS1_SHA256, &rng, MESSAGE, &mut sig).is_ok());
    assert_eq!(state.blinding().remaining(), REMAINING_MAX - 1);
}
