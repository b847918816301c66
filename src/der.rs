//! A reader for the DER encoding of a two-prime `RSAPrivateKey`.
use vstd::prelude::*;
use crate::Unspecified;

verus! {

/// The DER encoding of a content length; lengths of two bytes at most.
pub open spec fn der_len(l: nat) -> Seq<u8> {
    if l < 128 {
        seq![l as u8]
    } else if l < 256 {
        seq![0x81u8, l as u8]
    } else {
        seq![0x82u8, (l / 256) as u8, (l % 256) as u8]
    }
}

/// A tag, the length of `content`, and `content`.
pub open spec fn der_tlv(tag: u8, content: Seq<u8>) -> Seq<u8> {
    seq![tag] + der_len(content.len()) + content
}

/// A big-endian byte string without leading zero that writes a positive value.
pub open spec fn is_minimal_positive(v: Seq<u8>) -> bool {
    v.len() > 0 && v[0] != 0
}

/// The content octets of a DER INTEGER with the positive value written by
/// `v`: a zero byte goes in front where the top bit would read as a sign.
pub open spec fn positive_content(v: Seq<u8>) -> Seq<u8> {
    if v.len() > 0 && v[0] >= 0x80 {
        seq![0u8] + v
    } else {
        v
    }
}

/// A DER INTEGER holding the positive value written by `v`.
pub open spec fn int_tlv(v: Seq<u8>) -> Seq<u8> {
    der_tlv(0x02, positive_content(v))
}

/// The INTEGERs of `vs`, one after the other.
pub open spec fn ints_enc(vs: Seq<Seq<u8>>) -> Seq<u8>
    decreases vs.len(),
{
    if vs.len() == 0 {
        Seq::empty()
    } else {
        ints_enc(vs.drop_last()) + int_tlv(vs.last())
    }
}

/// The DER encoding of an `RSAPrivateKey` of version 0 whose nine integers
/// after the version are `vs`.
pub open spec fn private_key_der(vs: Seq<Seq<u8>>) -> Seq<u8> {
    private_key_der_version(0, vs)
}

/// The DER encoding of an `RSAPrivateKey` with the one-byte version `v`
/// whose integers after the version are `vs`.
pub open spec fn private_key_der_version(v: u8, vs: Seq<Seq<u8>>) -> Seq<u8> {
    der_tlv(0x30, der_tlv(0x02, seq![v]) + ints_enc(vs))
}

/// Two key encodings of contents shorter than 65536 bytes that are the same
/// bytes have the same version.
pub proof fn lemma_version_fixed(v1: u8, vs1: Seq<Seq<u8>>, v2: u8, vs2: Seq<Seq<u8>>)
    requires
        private_key_der_version(v1, vs1) == private_key_der_version(v2, vs2),
        (der_tlv(0x02, seq![v1]) + ints_enc(vs1)).len() < 65536,
        (der_tlv(0x02, seq![v2]) + ints_enc(vs2)).len() < 65536,
    ensures
        v1 == v2,
{
    let b1 = der_tlv(0x02, seq![v1]) + ints_enc(vs1);
    let b2 = der_tlv(0x02, seq![v2]) + ints_enc(vs2);
    let t = private_key_der_version(v1, vs1);
    assert(t.len() == 1 + der_len(b1.len()).len() + b1.len());
    assert(t.len() == 1 + der_len(b2.len()).len() + b2.len());
    assert(b1.len() == b2.len());
    let h: int = (1 + der_len(b1.len()).len()) as int;
    assert(t[h + 2] == b1[2]);
    assert(private_key_der_version(v2, vs2)[h + 2] == b2[2]);
}

/// The integers of an `RSAPrivateKey`, each big-endian without leading zero.
pub struct PrivateKeyFields {
    pub n: Vec<u8>,
    pub e: Vec<u8>,
    pub d: Vec<u8>,
    pub p: Vec<u8>,
    pub q: Vec<u8>,
    pub dmp1: Vec<u8>,
    pub dmq1: Vec<u8>,
    pub iqmp: Vec<u8>,
}

impl PrivateKeyFields {
    /// The integers in the order of the encoding: `n, e, d, p, q, dmp1,
    /// dmq1, iqmp`.
    pub open spec fn values(&self) -> Seq<Seq<u8>> {
        seq![self.n@, self.e@, self.d@, self.p@, self.q@, self.dmp1@, self.dmq1@, self.iqmp@]
    }

    /// Every integer is positive and minimally written.
    pub open spec fn all_minimal(&self) -> bool {
        forall|i: int| 0 <= i < 8 ==> #[trigger] is_minimal_positive(self.values()[i])
    }
}

/// `input` holds, at `pos`, the tag-length-value of `tag` and `c`.
pub open spec fn tlv_at(input: Seq<u8>, pos: int, tag: u8, c: Seq<u8>) -> bool {
    &&& c.len() < 65536
    &&& 0 <= pos
    &&& pos + der_tlv(tag, c).len() <= input.len()
    &&& input.subrange(pos, pos + der_tlv(tag, c).len()) == der_tlv(tag, c)
}

proof fn lemma_tlv_at(input: Seq<u8>, pos: int, tag: u8, c: Seq<u8>)
    requires
        tlv_at(input, pos, tag, c),
    ensures
        input[pos] == tag,
        c.len() < 128 ==> input[pos + 1] == c.len(),
        128 <= c.len() < 256 ==> input[pos + 1] == 0x81 && input[pos + 2] == c.len(),
        256 <= c.len() ==> input[pos + 1] == 0x82 && input[pos + 2] == c.len() / 256
            && input[pos + 3] == c.len() % 256,
        input.subrange(pos + 1 + der_len(c.len()).len(), pos + der_tlv(tag, c).len()) == c,
{
    let t = der_tlv(tag, c);
    let w = input.subrange(pos, pos + t.len());
    let h: int = (1 + der_len(c.len()).len()) as int;
    assert(w[0] == t[0]);
    assert(w[1] == t[1]);
    if c.len() >= 128 {
        assert(w[2] == t[2]);
    }
    if c.len() >= 256 {
        assert(w[3] == t[3]);
    }
    assert(t.subrange(h, t.len() as int) =~= c);
    assert(input.subrange(pos + h, pos + t.len()) =~= w.subrange(h, t.len() as int));
}

/// Reads a tag-length-value at `pos` whose tag is `tag`; returns where its
/// content starts and ends. It succeeds exactly when such a value of a
/// content shorter than 65536 bytes is there.
pub fn read_tlv(input: &[u8], pos: usize, tag: u8) -> (r: Option<(usize, usize)>)
    ensures
        r matches Some((s, e)) ==> pos < s <= e <= input@.len() && e - s < 65536
            && input@.subrange(pos as int, e as int) == der_tlv(tag, input@.subrange(s as int, e as int)),
        forall|c: Seq<u8>| #[trigger] tlv_at(input@, pos as int, tag, c) ==> r == Some((
            (pos + 1 + der_len(c.len()).len()) as usize, (pos + der_tlv(tag, c).len()) as usize)),
{
    let len = input.len();
    let mut r: Option<(usize, usize)> = None;
    if pos < len && input[pos] == tag && len - pos >= 2 {
        let b = input[pos + 1];
        let mut header: Option<(usize, usize)> = None;
        if b < 128 {
            header = Some((pos + 2, b as usize));
        } else if b == 0x81 {
            if len - pos >= 3 && input[pos + 2] >= 128 {
                header = Some((pos + 3, input[pos + 2] as usize));
            }
        } else if b == 0x82 {
            if len - pos >= 4 {
                let hi = input[pos + 2] as usize;
                let lo = input[pos + 3] as usize;
                let l = hi * 256 + lo;
                assert(l / 256 == hi && l % 256 == lo);
                if l >= 256 {
                    header = Some((pos + 4, l));
                }
            }
        }
        if let Some((s, l)) = header {
            if l <= len - s {
                let e = s + l;
                assert(input@.subrange(pos as int, e as int) =~= der_tlv(tag, input@.subrange(s as int, e as int)));
                r = Some((s, e));
            }
        }
    }
    proof {
        assert forall|c: Seq<u8>| #[trigger] tlv_at(input@, pos as int, tag, c) implies r == Some((
            (pos + 1 + der_len(c.len()).len()) as usize, (pos + der_tlv(tag, c).len()) as usize)) by {
            lemma_tlv_at(input@, pos as int, tag, c);
        }
    }
    r
}

/// Copies `input[s..e]`.
fn copy_range(input: &[u8], s: usize, e: usize) -> (r: Vec<u8>)
    requires
        s <= e <= input@.len(),
    ensures
        r@ == input@.subrange(s as int, e as int),
{
    let mut r: Vec<u8> = Vec::new();
    let mut i: usize = s;
    while i < e
        invariant
            s <= i <= e <= input@.len(),
            r@ == input@.subrange(s as int, i as int),
        decreases e - i,
    {
        r.push(input[i]);
        i = i + 1;
        assert(r@ =~= input@.subrange(s as int, i as int));
    }
    r
}

/// `input` holds, at `pos`, a DER INTEGER with the positive value written
/// minimally by `v`.
pub open spec fn int_at(input: Seq<u8>, pos: int, v: Seq<u8>) -> bool {
    &&& is_minimal_positive(v)
    &&& v.len() < 65535
    &&& tlv_at(input, pos, 0x02, positive_content(v))
}

/// Reads a DER INTEGER at `pos` that must hold a positive value in minimal
/// form; returns its big-endian bytes without leading zero and the position
/// after it. It succeeds exactly when such an INTEGER is there.
pub fn read_positive(input: &[u8], pos: usize) -> (r: Option<(Vec<u8>, usize)>)
    ensures
        r matches Some((v, next)) ==> pos < next <= input@.len() && is_minimal_positive(v@)
            && input@.subrange(pos as int, next as int) == int_tlv(v@),
        forall|v: Seq<u8>| #[trigger] int_at(input@, pos as int, v) ==> (r matches Some((w, next))
            && w@ == v && next == pos + int_tlv(v).len()),
{
    let mut r: Option<(Vec<u8>, usize)> = None;
    if let Some((s, e)) = read_tlv(input, pos, 0x02) {
        if s < e && input[s] < 0x80 {
            if input[s] == 0 {
                if e - s >= 2 && input[s + 1] >= 0x80 {
                    let v = copy_range(input, s + 1, e);
                    assert(input@.subrange(s as int, e as int) =~= seq![0u8] + v@);
                    r = Some((v, e));
                }
            } else {
                let v = copy_range(input, s, e);
                r = Some((v, e));
            }
        }
    }
    proof {
        assert forall|v: Seq<u8>| #[trigger] int_at(input@, pos as int, v) implies (r matches Some((w, next))
            && w@ == v && next == pos + int_tlv(v).len()) by {
            let c = positive_content(v);
            lemma_tlv_at(input@, pos as int, 0x02, c);
            let s = pos + 1 + der_len(c.len()).len();
            let e = pos + der_tlv(0x02, c).len();
            assert(input@.subrange(s as int, e as int) == c);
            assert(input@[s as int] == input@.subrange(s as int, e as int)[0]);
            if v[0] >= 0x80 {
                assert(input@[s + 1] == input@.subrange(s as int, e as int)[1]);
                assert(input@.subrange(s + 1, e as int) =~= c.subrange(1, c.len() as int));
                assert(c.subrange(1, c.len() as int) =~= v);
            }
        }
    }
    r
}

/// `input` is exactly the DER encoding of an `RSAPrivateKey` of version 0
/// whose integers after the version are `vs`, each positive, minimally
/// written and at most 1024 bytes long.
pub open spec fn key_der_at(input: Seq<u8>, vs: Seq<Seq<u8>>) -> bool {
    &&& vs.len() == 8
    &&& forall|i: int| 0 <= i < 8 ==> is_minimal_positive(#[trigger] vs[i]) && vs[i].len() <= 1024
    &&& input == private_key_der(vs)
}

proof fn lemma_ints_enc_split(vs: Seq<Seq<u8>>, k: int)
    requires
        0 <= k <= vs.len(),
    ensures
        ints_enc(vs) == ints_enc(vs.subrange(0, k)) + ints_enc(vs.subrange(k, vs.len() as int)),
    decreases vs.len(),
{
    if k == vs.len() {
        assert(vs.subrange(0, k) =~= vs);
        assert(vs.subrange(k, vs.len() as int) =~= Seq::<Seq<u8>>::empty());
        assert(ints_enc(vs) + Seq::<u8>::empty() =~= ints_enc(vs));
    } else {
        let dl = vs.drop_last();
        lemma_ints_enc_split(dl, k);
        assert(dl.subrange(0, k) =~= vs.subrange(0, k));
        assert(vs.subrange(k, vs.len() as int).drop_last() =~= dl.subrange(k, dl.len() as int));
        assert(ints_enc(vs) =~= ints_enc(vs.subrange(0, k)) + ints_enc(vs.subrange(k, vs.len() as int)));
    }
}

proof fn lemma_ints_enc_len(vs: Seq<Seq<u8>>)
    requires
        forall|i: int| 0 <= i < vs.len() ==> (#[trigger] vs[i]).len() <= 1024,
    ensures
        ints_enc(vs).len() <= vs.len() * 1029,
    decreases vs.len(),
{
    if vs.len() > 0 {
        let dl = vs.drop_last();
        assert forall|i: int| 0 <= i < dl.len() implies (#[trigger] dl[i]).len() <= 1024 by {
            assert(dl[i] == vs[i]);
        }
        lemma_ints_enc_len(dl);
    }
}

/// Where the parts of a key encoding lie.
proof fn lemma_key_der_layout(input: Seq<u8>, vs: Seq<Seq<u8>>)
    requires
        key_der_at(input, vs),
    ensures
        ({
            let body = der_tlv(0x02, seq![0u8]) + ints_enc(vs);
            let s0 = (1 + der_len(body.len()).len()) as int;
            &&& tlv_at(input, 0, 0x30, body)
            &&& input.len() == 1 + der_len(body.len()).len() + body.len()
            &&& tlv_at(input, s0, 0x02, seq![0u8])
            &&& input.subrange(s0 + 3, input.len() as int) == ints_enc(vs)
        }),
{
    let body = der_tlv(0x02, seq![0u8]) + ints_enc(vs);
    let s0 = (1 + der_len(body.len()).len()) as int;
    lemma_ints_enc_len(vs);
    assert(input.subrange(0, input.len() as int) =~= input);
    assert(der_tlv(0x02, seq![0u8]).len() == 3);
    assert(input.subrange(s0, s0 + 3) =~= der_tlv(0x02, seq![0u8]));
    assert(input.subrange(s0 + 3, input.len() as int) =~= ints_enc(vs));
}

/// Parses a DER `RSAPrivateKey` of version 0 that fills all of `input`. It
/// succeeds exactly when `input` is such an encoding, and then returns the
/// integers that it encodes.
pub fn parse_private_key(input: &[u8]) -> (r: Result<PrivateKeyFields, Unspecified>)
    ensures
        r matches Ok(f) ==> f.all_minimal() && input@ == private_key_der(f.values())
            && (der_tlv(0x02, seq![0u8]) + ints_enc(f.values())).len() < 65536,
        forall|vs: Seq<Seq<u8>>| #[trigger] key_der_at(input@, vs) ==> (r matches Ok(f) && f.values() == vs),
{
    let mut r: Result<PrivateKeyFields, Unspecified> = Err(Unspecified);
    proof {
        assert forall|vs: Seq<Seq<u8>>| #[trigger] key_der_at(input@, vs) implies
            tlv_at(input@, 0, 0x30, der_tlv(0x02, seq![0u8]) + ints_enc(vs)) by {
            lemma_key_der_layout(input@, vs);
        }
    }
    if let Some((s0, e0)) = read_tlv(input, 0, 0x30) {
        if e0 == input.len() {
            proof {
                assert forall|vs: Seq<Seq<u8>>| #[trigger] key_der_at(input@, vs) implies
                    tlv_at(input@, s0 as int, 0x02, seq![0u8]) by {
                    lemma_key_der_layout(input@, vs);
                }
            }
            if let Some((vs0, ve)) = read_tlv(input, s0, 0x02) {
                if ve - vs0 == 1 && input[vs0] == 0 && ve <= e0 {
                    assert(input@.subrange(vs0 as int, ve as int) =~= seq![0u8]);
                    proof {
                        let c = input@.subrange(s0 as int, e0 as int);
                        assert(input@.subrange(0, e0 as int) =~= input@);
                        assert(input@.subrange(0, s0 as int) =~= seq![0x30u8] + der_len(c.len()));
                        assert forall|vs: Seq<Seq<u8>>| #[trigger] key_der_at(input@, vs) implies s0 == 1
                            + der_len((der_tlv(0x02, seq![0u8]) + ints_enc(vs)).len()).len() by {
                            lemma_key_der_layout(input@, vs);
                        }
                    }
                    r = parse_integers(input, s0, ve);
                }
            }
        }
    }
    r
}

/// Reads the eight integers that follow the version, from `ve` to the end
/// of `input`, where the sequence's content starts at `s0`.
fn parse_integers(input: &[u8], s0: usize, ve: usize) -> (r: Result<PrivateKeyFields, Unspecified>)
    requires
        0 < s0 < ve <= input@.len(),
        input@.subrange(0, s0 as int) == seq![0x30u8] + der_len((input@.len() - s0) as nat),
        input@.subrange(s0 as int, ve as int) == der_tlv(0x02, seq![0u8]),
        (input@.len() - s0) < 65536,
        ve == s0 + 3,
        forall|vs: Seq<Seq<u8>>| #[trigger] key_der_at(input@, vs) ==> s0 == 1 + der_len(
            (der_tlv(0x02, seq![0u8]) + ints_enc(vs)).len()).len(),
    ensures
        r matches Ok(f) ==> f.all_minimal() && input@ == private_key_der(f.values())
            && (der_tlv(0x02, seq![0u8]) + ints_enc(f.values())).len() < 65536,
        forall|vs: Seq<Seq<u8>>| #[trigger] key_der_at(input@, vs) ==> (r matches Ok(f) && f.values() == vs),
{
    let e0 = input.len();
    let mut vals: Vec<Vec<u8>> = Vec::new();
    let mut pos: usize = ve;
    let mut ok: bool = true;
    let ghost gv: Seq<Seq<u8>> = Seq::empty();
    assert(input@.subrange(ve as int, pos as int) =~= ints_enc(gv));
    proof {
        assert forall|vs: Seq<Seq<u8>>| #[trigger] key_der_at(input@, vs) implies
            gv == vs.subrange(0, gv.len() as int) by {
            assert(vs.subrange(0, 0) =~= gv);
        }
    }
    while ok && vals.len() < 8
        invariant
            ve <= pos <= e0 == input@.len(),
            ve == s0 + 3,
            forall|vs: Seq<Seq<u8>>| #[trigger] key_der_at(input@, vs) ==> s0 == 1 + der_len(
                (der_tlv(0x02, seq![0u8]) + ints_enc(vs)).len()).len(),
            vals@.len() <= 8,
            gv == vals@.map_values(|v: Vec<u8>| v@),
            input@.subrange(ve as int, pos as int) == ints_enc(gv),
            forall|i: int| 0 <= i < gv.len() ==> #[trigger] is_minimal_positive(gv[i]),
            forall|vs: Seq<Seq<u8>>| #[trigger] key_der_at(input@, vs) ==> ok
                && gv == vs.subrange(0, gv.len() as int),
        decreases 8 - vals@.len() + (if ok { 1int } else { 0int }),
    {
        let ghost i = gv.len() as int;
        proof {
            assert forall|vs: Seq<Seq<u8>>| #[trigger] key_der_at(input@, vs) implies
                int_at(input@, pos as int, vs[i]) by {
                lemma_key_der_layout(input@, vs);
                lemma_ints_enc_split(vs, i + 1);
                assert(vs.subrange(0, i + 1).drop_last() =~= vs.subrange(0, i));
                assert(vs.subrange(0, i + 1).last() == vs[i]);
                let pre = ints_enc(vs.subrange(0, i));
                let t = int_tlv(vs[i]);
                assert(ints_enc(vs) == pre + t + ints_enc(vs.subrange(i + 1, 8)));
                assert(input@.subrange(ve as int, e0 as int) == ints_enc(vs));
                assert(pos - ve == pre.len());
                assert(input@.subrange(pos as int, pos + t.len()) =~= t);
            }
        }
        match read_positive(input, pos) {
            Some((v, next)) => {
                if next <= e0 {
                    let ghost old_gv = gv;
                    proof {
                        gv = gv.push(v@);
                        assert(gv.drop_last() =~= old_gv);
                        assert(input@.subrange(ve as int, next as int) =~= input@.subrange(ve as int, pos as int)
                            + input@.subrange(pos as int, next as int));
                        assert forall|vs: Seq<Seq<u8>>| #[trigger] key_der_at(input@, vs) implies
                            gv == vs.subrange(0, gv.len() as int) by {
                            assert(gv =~= vs.subrange(0, gv.len() as int));
                        }
                    }
                    vals.push(v);
                    pos = next;
                    assert(gv =~= vals@.map_values(|v: Vec<u8>| v@));
                } else {
                    proof {
                        assert forall|vs: Seq<Seq<u8>>| #[trigger] key_der_at(input@, vs) implies false by {
                            lemma_key_der_layout(input@, vs);
                            lemma_ints_enc_split(vs, i + 1);
                            assert(vs.subrange(0, i + 1).drop_last() =~= vs.subrange(0, i));
                            assert(input@.subrange(ve as int, e0 as int) == ints_enc(vs));
                        }
                    }
                    ok = false;
                }
            },
            None => {
                ok = false;
            },
        }
    }
    if !ok || pos != e0 {
        proof {
            assert forall|vs: Seq<Seq<u8>>| #[trigger] key_der_at(input@, vs) implies false by {
                lemma_key_der_layout(input@, vs);
                assert(gv =~= vs);
                assert(input@.subrange(ve as int, e0 as int) == ints_enc(vs));
            }
        }
        return Err(Unspecified);
    }
    let iqmp = vals.pop().unwrap();
    let dmq1 = vals.pop().unwrap();
    let dmp1 = vals.pop().unwrap();
    let q = vals.pop().unwrap();
    let p = vals.pop().unwrap();
    let d = vals.pop().unwrap();
    let e = vals.pop().unwrap();
    let n = vals.pop().unwrap();
    let f = PrivateKeyFields { n, e, d, p, q, dmp1, dmq1, iqmp };
    assert(f.values() =~= gv);
    proof {
        assert forall|vs: Seq<Seq<u8>>| #[trigger] key_der_at(input@, vs) implies f.values() == vs by {
            assert(gv =~= vs.subrange(0, 8));
            assert(vs.subrange(0, 8) =~= vs);
        }
        let body = input@.subrange(s0 as int, e0 as int);
        assert(body =~= input@.subrange(s0 as int, ve as int) + input@.subrange(ve as int, e0 as int));
        assert(input@ =~= input@.subrange(0, s0 as int) + body);
        assert(input@ =~= private_key_der(f.values()));
        assert(body =~= der_tlv(0x02, seq![0u8]) + ints_enc(f.values()));
    }
    Ok(f)
}

} // verus!
