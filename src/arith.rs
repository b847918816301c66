//! Unsigned big integers held as big-endian byte strings, and the modular
//! arithmetic that signing needs. The arithmetic itself is done by
//! `num_bigint`; each operation states its result over `be_value`.
use vstd::prelude::*;
use vstd::arithmetic::power::{pow, lemma_pow_distributes, lemma_pow_mod_noop, lemma1_pow};
use vstd::arithmetic::div_mod::{lemma_mul_mod_noop, lemma_mod_twice, lemma_small_mod,
    lemma_mod_multiples_vanish, lemma_add_mod_noop};
use num_bigint::BigUint;

verus! {

/// The value of a big-endian byte string.
pub open spec fn be_value(s: Seq<u8>) -> nat
    decreases s.len(),
{
    if s.len() == 0 {
        0
    } else {
        be_value(s.drop_last()) * 256 + s.last() as nat
    }
}

/// The number of bits needed to write `v`: the least `k` with `v < 2^k`.
pub open spec fn bit_len(v: nat) -> nat
    decreases v,
{
    if v == 0 {
        0
    } else {
        1 + bit_len(v / 2)
    }
}

/// Relies on `num_bigint::BigUint`'s `Mul`: the exact product.
#[verifier::external_body]
pub(crate) fn big_mul(a: &Vec<u8>, b: &Vec<u8>) -> (r: Vec<u8>)
    ensures
        be_value(r@) == be_value(a@) * be_value(b@),
{
    (BigUint::from_bytes_be(a) * BigUint::from_bytes_be(b)).to_bytes_be()
}

/// Relies on `num_bigint::BigUint`'s `Add`: the exact sum.
#[verifier::external_body]
pub(crate) fn big_add(a: &Vec<u8>, b: &Vec<u8>) -> (r: Vec<u8>)
    ensures
        be_value(r@) == be_value(a@) + be_value(b@),
{
    (BigUint::from_bytes_be(a) + BigUint::from_bytes_be(b)).to_bytes_be()
}

/// Relies on `num_bigint::BigUint`'s `Sub`: the exact difference; it panics
/// when `b > a`, which `requires` leaves out.
#[verifier::external_body]
pub(crate) fn big_sub(a: &Vec<u8>, b: &Vec<u8>) -> (r: Vec<u8>)
    requires
        be_value(b@) <= be_value(a@),
    ensures
        be_value(r@) == be_value(a@) - be_value(b@),
{
    (BigUint::from_bytes_be(a) - BigUint::from_bytes_be(b)).to_bytes_be()
}

/// Relies on `num_bigint::BigUint`'s `Rem`: the remainder; it panics on a
/// zero modulus, which `requires` leaves out.
#[verifier::external_body]
pub(crate) fn big_rem(a: &Vec<u8>, m: &Vec<u8>) -> (r: Vec<u8>)
    requires
        be_value(m@) > 0,
    ensures
        be_value(r@) == be_value(a@) % be_value(m@),
{
    (BigUint::from_bytes_be(a) % BigUint::from_bytes_be(m)).to_bytes_be()
}

/// Relies on `num_bigint::BigUint::modpow`: `(b ^ e) % m`; it panics on a zero
/// modulus, which `requires` leaves out.
#[verifier::external_body]
pub(crate) fn big_modpow(b: &Vec<u8>, e: &Vec<u8>, m: &Vec<u8>) -> (r: Vec<u8>)
    requires
        be_value(m@) > 0,
    ensures
        be_value(r@) == pow(be_value(b@) as int, be_value(e@)) % (be_value(m@) as int),
{
    BigUint::from_bytes_be(b).modpow(&BigUint::from_bytes_be(e), &BigUint::from_bytes_be(m))
        .to_bytes_be()
}

/// Relies on `num_bigint::BigUint::modinv`: the `x` in `[0, m)` with
/// `a * x ≡ 1 (mod m)` when one exists, `None` when none does; it panics on a
/// zero modulus, which `requires` leaves out.
#[verifier::external_body]
pub(crate) fn big_modinv(a: &Vec<u8>, m: &Vec<u8>) -> (r: Option<Vec<u8>>)
    requires
        be_value(m@) > 0,
    ensures
        r matches Some(x) ==> be_value(x@) < be_value(m@) && (be_value(a@) * be_value(x@))
            % be_value(m@) == 1nat % be_value(m@),
        r is None ==> forall|x: nat|
            #![trigger (be_value(a@) * x) % be_value(m@)]
            (be_value(a@) * x) % be_value(m@) != 1nat % be_value(m@),
{
    BigUint::from_bytes_be(a).modinv(&BigUint::from_bytes_be(m)).map(|x| x.to_bytes_be())
}

/// Relies on `num_bigint::BigUint`'s `Ord`: numeric comparison.
#[verifier::external_body]
pub(crate) fn big_lt(a: &Vec<u8>, b: &Vec<u8>) -> (r: bool)
    ensures
        r == (be_value(a@) < be_value(b@)),
{
    BigUint::from_bytes_be(a) < BigUint::from_bytes_be(b)
}

/// Relies on `num_bigint::BigUint`'s `PartialEq`: numeric equality.
#[verifier::external_body]
pub(crate) fn big_eq(a: &Vec<u8>, b: &Vec<u8>) -> (r: bool)
    ensures
        r == (be_value(a@) == be_value(b@)),
{
    BigUint::from_bytes_be(a) == BigUint::from_bytes_be(b)
}

/// Relies on `num_bigint::BigUint::bits`: the fewest bits that express the
/// value.
#[verifier::external_body]
pub(crate) fn big_bits(a: &Vec<u8>) -> (r: u64)
    ensures
        r as nat == bit_len(be_value(a@)),
{
    BigUint::from_bytes_be(a).bits()
}

/// `n` copies of `b`.
pub fn filled(n: usize, b: u8) -> (r: Vec<u8>)
    ensures
        r@ == Seq::new(n as nat, |i: int| b),
{
    let mut r: Vec<u8> = Vec::new();
    while r.len() < n
        invariant
            r@.len() <= n,
            r@ == Seq::new(r@.len(), |i: int| b),
        decreases n - r@.len(),
    {
        r.push(b);
        assert(r@ =~= Seq::new(r@.len(), |i: int| b));
    }
    r
}

/// `(a * b) mod m`.
pub fn mod_mul(a: &Vec<u8>, b: &Vec<u8>, m: &Vec<u8>) -> (r: Vec<u8>)
    requires
        be_value(m@) > 0,
    ensures
        be_value(r@) == (be_value(a@) * be_value(b@)) % be_value(m@),
{
    big_rem(&big_mul(a, b), m)
}

/// Products of congruent factors are congruent.
pub proof fn lemma_mul_congruent(a: int, b: int, c: int, d: int, n: int)
    requires
        n > 0,
        a % n == c % n,
        b % n == d % n,
    ensures
        (a * b) % n == (c * d) % n,
{
    lemma_mul_mod_noop(a, b, n);
    lemma_mul_mod_noop(c, d, n);
}

/// Powers of congruent bases are congruent.
pub proof fn lemma_pow_congruent(a: int, b: int, e: nat, n: int)
    requires
        n > 0,
        a % n == b % n,
    ensures
        pow(a, e) % n == pow(b, e) % n,
{
    lemma_pow_mod_noop(a, e, n);
    lemma_pow_mod_noop(b, e, n);
}

/// If `r * r_inv ≡ 1 (mod n)` then `(r^e mod n) * r_inv^e ≡ 1 (mod n)`.
pub proof fn lemma_pow_of_inverse(r: int, r_inv: int, e: nat, n: int)
    requires
        n > 1,
        (r * r_inv) % n == 1,
    ensures
        ((pow(r, e) % n) * pow(r_inv, e)) % n == 1,
{
    lemma_mod_twice(pow(r, e), n);
    lemma_mul_congruent(pow(r, e) % n, pow(r_inv, e), pow(r, e), pow(r_inv, e), n);
    lemma_pow_distributes(r, r_inv, e);
    lemma_small_mod(1, n as nat);
    lemma_pow_congruent(r * r_inv, 1, e, n);
    lemma1_pow(e);
}

/// Squaring both halves of a blinding pair keeps `a * b^e ≡ 1 (mod n)`.
pub proof fn lemma_square_pair(a: int, b: int, e: nat, n: int)
    requires
        n > 1,
        (a * pow(b, e)) % n == 1,
    ensures
        (((a * a) % n) * pow((b * b) % n, e)) % n == 1,
{
    let pb = pow(b, e);
    lemma_mod_twice(b * b, n);
    lemma_mod_twice(a * a, n);
    lemma_small_mod(1, n as nat);
    lemma_pow_congruent((b * b) % n, b * b, e, n);
    lemma_pow_distributes(b, b, e);
    assert(pow(b * b, e) == pb * pb);
    lemma_mul_congruent((a * a) % n, pow((b * b) % n, e), a * a, pb * pb, n);
    assert((a * a) * (pb * pb) == (a * pb) * (a * pb)) by (nonlinear_arith);
    lemma_mul_congruent(a * pb, a * pb, 1, 1, n);
}

/// Unblinding: if `z = A * x mod n`, `w^e ≡ z` and `y = A_inv * w mod n`,
/// where `A * A_inv^e ≡ 1 (mod n)`, then `y^e ≡ x (mod n)`.
pub proof fn lemma_unblind(a: int, a_inv: int, x: int, z: int, w: int, y: int, e: nat, n: int)
    requires
        n > 1,
        0 <= x < n,
        (a * pow(a_inv, e)) % n == 1,
        z == (a * x) % n,
        pow(w, e) % n == z,
        y == (a_inv * w) % n,
    ensures
        pow(y, e) % n == x,
{
    let pa = pow(a_inv, e);
    lemma_mod_twice(a_inv * w, n);
    lemma_pow_congruent(y, a_inv * w, e, n);
    lemma_pow_distributes(a_inv, w, e);
    lemma_mod_twice(a * x, n);
    lemma_mul_congruent(pa, pow(w, e), pa, a * x, n);
    assert(pa * (a * x) == (a * pa) * x) by (nonlinear_arith);
    lemma_small_mod(1, n as nat);
    lemma_mul_congruent(a * pa, x, 1, x, n);
    lemma_small_mod(x as nat, n as nat);
}

/// The value of `a` followed by `b`.
pub proof fn lemma_be_concat(a: Seq<u8>, b: Seq<u8>)
    ensures
        be_value(a + b) == be_value(a) * pow(256, b.len()) + be_value(b),
    decreases b.len(),
{
    if b.len() == 0 {
        assert(a + b =~= a);
        vstd::arithmetic::power::lemma_pow0(256);
    } else {
        lemma_be_concat(a, b.drop_last());
        assert((a + b).drop_last() =~= a + b.drop_last());
        vstd::arithmetic::power::lemma_pow_adds(256, (b.len() - 1) as nat, 1);
        vstd::arithmetic::power::lemma_pow1(256);
        let p = pow(256, (b.len() - 1) as nat);
        assert((be_value(a) * p + be_value(b.drop_last())) * 256 + b.last() as nat
            == be_value(a) * (p * 256) + (be_value(b.drop_last()) * 256 + b.last() as nat))
            by (nonlinear_arith);
    }
}

/// `v` lies in `[2^(bit_len(v) - 1), 2^bit_len(v))`.
pub proof fn lemma_bit_len_bounds(v: nat)
    ensures
        v < pow(2, bit_len(v)),
        v > 0 ==> pow(2, (bit_len(v) - 1) as nat) <= v,
    decreases v,
{
    vstd::arithmetic::power::lemma_pow0(2);
    if v > 0 {
        lemma_bit_len_bounds(v / 2);
        vstd::arithmetic::power::lemma_pow_adds(2, bit_len(v / 2), 1);
        vstd::arithmetic::power::lemma_pow1(2);
        if v / 2 > 0 {
            vstd::arithmetic::power::lemma_pow_adds(2, (bit_len(v / 2) - 1) as nat, 1);
        }
    }
}

/// `2^bits <= 256^⌈bits / 8⌉`.
pub proof fn lemma_bits_fit_bytes(bits: nat)
    ensures
        pow(2, bits) <= pow(256, (bits + 7) / 8),
{
    let k = (bits + 7) / 8;
    vstd::arithmetic::power::lemma_pow_multiplies(2, 8, k);
    reveal_with_fuel(pow, 9);
    assert(pow(2, 8) == 256);
    vstd::arithmetic::power::lemma_pow_increases(2, bits, 8 * k);
}

/// A byte string whose first byte is not zero has value at least
/// `256^(len - 1)`.
pub proof fn lemma_be_leading_nonzero(s: Seq<u8>)
    requires
        s.len() > 0,
        s[0] != 0,
    ensures
        be_value(s) >= pow(256, (s.len() - 1) as nat),
{
    let head = s.subrange(0, 1);
    let tail = s.subrange(1, s.len() as int);
    assert(s =~= head + tail);
    lemma_be_concat(head, tail);
    assert(head.drop_last() =~= Seq::<u8>::empty());
    assert(be_value(head.drop_last()) == 0);
    assert(head.last() == s[0]);
    assert(be_value(head) == s[0] as nat);
    vstd::arithmetic::power::lemma_pow_positive(256, tail.len());
    assert(be_value(head) * pow(256, tail.len()) >= pow(256, tail.len())) by (nonlinear_arith)
        requires be_value(head) >= 1, pow(256, tail.len()) > 0;
}

/// A run of zero bytes has value 0.
pub proof fn lemma_be_zeros(k: nat)
    ensures
        be_value(Seq::new(k, |i: int| 0u8)) == 0,
    decreases k,
{
    if k > 0 {
        assert(Seq::new(k, |i: int| 0u8).drop_last() =~= Seq::new((k - 1) as nat, |i: int| 0u8));
        lemma_be_zeros((k - 1) as nat);
    }
}

/// A value below `256^len` written in exactly `len` big-endian bytes, or
/// `None` when it does not fit.
pub fn to_fixed_be(v: &Vec<u8>, len: usize) -> (r: Option<Vec<u8>>)
    ensures
        r matches Some(out) ==> out@.len() == len && be_value(out@) == be_value(v@),
        be_value(v@) < pow(256, len as nat) ==> r is Some,
{
    let mut i: usize = 0;
    while i < v.len() && v[i] == 0
        invariant
            i <= v@.len(),
            v@.subrange(0, i as int) == Seq::new(i as nat, |j: int| 0u8),
        decreases v@.len() - i,
    {
        i = i + 1;
        assert(v@.subrange(0, i as int) =~= Seq::new(i as nat, |j: int| 0u8));
    }
    let rest = v.len() - i;
    proof {
        let tail = v@.subrange(i as int, v@.len() as int);
        assert(v@ =~= v@.subrange(0, i as int) + tail);
        lemma_be_concat(v@.subrange(0, i as int), tail);
        lemma_be_zeros(i as nat);
    }
    if rest > len {
        proof {
            let tail = v@.subrange(i as int, v@.len() as int);
            lemma_be_leading_nonzero(tail);
            vstd::arithmetic::power::lemma_pow_increases(256, len as nat, (rest - 1) as nat);
        }
        return None;
    }
    let mut out = filled(len - rest, 0u8);
    let ghost zeros = out@;
    let mut j: usize = i;
    while j < v.len()
        invariant
            i <= j <= v@.len(),
            out@ == zeros + v@.subrange(i as int, j as int),
        decreases v@.len() - j,
    {
        out.push(v[j]);
        j = j + 1;
        assert(out@ =~= zeros + v@.subrange(i as int, j as int));
    }
    proof {
        let tail = v@.subrange(i as int, v@.len() as int);
        assert(v@ =~= v@.subrange(0, i as int) + tail);
        lemma_be_concat(v@.subrange(0, i as int), tail);
        lemma_be_zeros(i as nat);
        lemma_be_concat(zeros, tail);
        lemma_be_zeros((len - rest) as nat);
    }
    Some(out)
}

/// Whether the value is odd.
pub fn is_odd(v: &Vec<u8>) -> (r: bool)
    ensures
        r == (be_value(v@) % 2 == 1),
{
    if v.len() == 0 {
        false
    } else {
        v[v.len() - 1] % 2 == 1
    }
}

/// Whether the value is 0.
pub fn is_zero(v: &Vec<u8>) -> (r: bool)
    ensures
        r == (be_value(v@) == 0),
{
    let zero: Vec<u8> = Vec::new();
    assert(be_value(zero@) == 0);
    big_eq(v, &zero)
}

/// Whether the value is 1.
pub fn is_one(v: &Vec<u8>) -> (r: bool)
    ensures
        r == (be_value(v@) == 1),
{
    let one: Vec<u8> = vec![1u8];
    assert(one@.drop_last() =~= Seq::<u8>::empty());
    assert(be_value(one@.drop_last()) == 0);
    assert(one@.last() == 1u8);
    assert(be_value(one@) == 1);
    big_eq(v, &one)
}

/// Garner's recombination: with `mq < q < p`, `diff ≡ mp - mq (mod p)`,
/// `h = iqmp * diff mod p` and `iqmp * q ≡ 1 (mod p)`, the value
/// `m = mq + h * q` is below `p * q`, `m ≡ mp (mod p)` and `m ≡ mq (mod q)`.
pub proof fn lemma_crt_recombine(mp: int, mq: int, diff: int, h: int, iqmp: int, p: int, q: int)
    requires
        0 < q < p,
        0 <= mp < p,
        0 <= mq < q,
        0 <= diff < p,
        (diff + mq) % p == mp,
        0 <= iqmp,
        (iqmp * q) % p == 1,
        h == (iqmp * diff) % p,
    ensures
        0 <= mq + h * q < p * q,
        (mq + h * q) % p == mp,
        (mq + h * q) % q == mq,
{
    lemma_small_mod(mq as nat, q as nat);
    lemma_mod_multiples_vanish(h, mq, q);
    assert(q * h == h * q) by (nonlinear_arith);
    assert(0 <= h < p);
    assert(mq + h * q <= (q - 1) + (p - 1) * q) by (nonlinear_arith)
        requires 0 <= mq < q, 0 <= h < p, q > 0;
    assert((q - 1) + (p - 1) * q == p * q - 1) by (nonlinear_arith);
    assert(h * q >= 0) by (nonlinear_arith) requires h >= 0, q > 0;
    // h * q ≡ iqmp * diff * q ≡ diff * (iqmp * q) ≡ diff (mod p).
    lemma_mod_twice(iqmp * diff, p);
    lemma_mul_congruent(h, q, iqmp * diff, q, p);
    assert((iqmp * diff) * q == diff * (iqmp * q)) by (nonlinear_arith);
    lemma_mod_twice(diff, p);
    lemma_small_mod(1, p as nat);
    lemma_mul_congruent(diff, iqmp * q, diff, 1, p);
    assert((h * q) % p == diff % p);
    lemma_add_mod_noop(mq, h * q, p);
    lemma_add_mod_noop(mq, diff, p);
}

/// A byte string of length `k` has value below `256^k`.
pub proof fn lemma_be_upper(s: Seq<u8>)
    ensures
        be_value(s) < pow(256, s.len()),
    decreases s.len(),
{
    vstd::arithmetic::power::lemma_pow0(256);
    if s.len() > 0 {
        lemma_be_upper(s.drop_last());
        vstd::arithmetic::power::lemma_pow_adds(256, (s.len() - 1) as nat, 1);
        vstd::arithmetic::power::lemma_pow1(256);
        let p = pow(256, (s.len() - 1) as nat);
        assert(be_value(s.drop_last()) * 256 + s.last() < p * 256) by (nonlinear_arith)
            requires be_value(s.drop_last()) < p, s.last() < 256;
    }
}

/// A string of `k = ⌈bitlen(n) / 8⌉` bytes that starts `00 01` has value
/// below `n`.
pub proof fn lemma_leading_00_01_below(em: Seq<u8>, n: nat)
    requires
        n > 0,
        em.len() == (bit_len(n) + 7) / 8,
        em.len() >= 3,
        em[0] == 0,
        em[1] == 1,
    ensures
        be_value(em) < n,
{
    let k = em.len();
    let head = em.subrange(0, 2);
    let tail = em.subrange(2, k as int);
    assert(em =~= head + tail);
    lemma_be_concat(head, tail);
    let h0 = head.drop_last();
    assert(h0.drop_last() =~= Seq::<u8>::empty());
    assert(be_value(h0.drop_last()) == 0);
    assert(h0.last() == 0);
    assert(be_value(h0) == 0);
    assert(head.last() == 1);
    assert(be_value(head) == 1);
    lemma_be_upper(tail);
    let t = (k - 2) as nat;
    vstd::arithmetic::power::lemma_pow_multiplies(2, 8, t);
    reveal_with_fuel(pow, 9);
    assert(pow(2, 8) == 256);
    vstd::arithmetic::power::lemma_pow_adds(2, 8 * t, 1);
    lemma_bit_len_bounds(n);
    vstd::arithmetic::power::lemma_pow_increases(2, 8 * t + 1, (bit_len(n) - 1) as nat);
}

} // verus!
