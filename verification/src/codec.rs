//! Binary wire format of the node.
//!
//! Blocks, ledger snapshots, auxiliary replay data and protocol messages
//! travel and rest as length-framed bytes. Integers are laid out
//! big-endian, so that fixed-width keys sort lexicographically in numeric
//! order; variable parts carry a 32-bit length prefix. Every decoder is
//! the exact inverse of its encoder, and the round trip is proved.

use vstd::prelude::*;

use crate::block::{AuxData, AuxDataV, Block, BlockV, Header};
use crate::digest::Digest;

verus! {

// ---------------------------------------------------------------------
// 32-bit integers, big-endian
// ---------------------------------------------------------------------

/// The four big-endian bytes of `x`.
pub open spec fn enc_u32(x: u32) -> Seq<u8> {
    seq![
        (x / 16777216) as u8,
        ((x / 65536) % 256) as u8,
        ((x / 256) % 256) as u8,
        (x % 256) as u8,
    ]
}

/// Reads four big-endian bytes; yields the value and the rest of the input.
pub open spec fn dec_u32(s: Seq<u8>) -> Option<(u32, Seq<u8>)> {
    if s.len() < 4 {
        None
    } else {
        Some(
            (
                (s[0] * 16777216 + s[1] * 65536 + s[2] * 256 + s[3]) as u32,
                s.subrange(4, s.len() as int),
            ),
        )
    }
}

/// Big-endian layout of a 32-bit value reads back to itself.
pub proof fn lemma_u32_round_trip(x: u32, rest: Seq<u8>)
    ensures
        dec_u32(enc_u32(x) + rest) == Some((x, rest)),
{
    let s = enc_u32(x) + rest;
    assert(s.len() >= 4);
    assert(s[0] == (x / 16777216) as u8);
    assert(s[1] == ((x / 65536) % 256) as u8);
    assert(s[2] == ((x / 256) % 256) as u8);
    assert(s[3] == (x % 256) as u8);
    assert((x / 16777216) * 16777216 + ((x / 65536) % 256) * 65536 + ((x / 256) % 256) * 256 + (
    x % 256) == x) by (bit_vector);
    assert(x / 16777216 < 256) by (bit_vector);
    assert(s.subrange(4, s.len() as int) =~= rest);
}

/// Appends the four big-endian bytes of `x` to `out`.
pub fn encode_u32(x: u32, out: &mut Vec<u8>)
    ensures
        final(out)@ == old(out)@ + enc_u32(x),
{
    out.push((x / 16777216) as u8);
    out.push(((x / 65536) % 256) as u8);
    out.push(((x / 256) % 256) as u8);
    out.push((x % 256) as u8);
    assert(final(out)@ =~= old(out)@ + enc_u32(x));
}

/// Reads a 32-bit value at offset `i`, returning it with the offset that
/// follows it.
pub fn decode_u32(data: &Vec<u8>, i: usize) -> (r: Option<(u32, usize)>)
    requires
        i <= data@.len(),
    ensures
        (match r {
            Some((x, j)) => {
                &&& dec_u32(data@.subrange(i as int, data@.len() as int)) matches Some(p)
                &&& p.0 == x
                &&& j == i + 4
                &&& p.1 == data@.subrange(j as int, data@.len() as int)
            },
            None => dec_u32(data@.subrange(i as int, data@.len() as int)) is None,
        }),
{
    if data.len() - i < 4 {
        return None;
    }
    let b0 = data[i] as u32;
    let b1 = data[i + 1] as u32;
    let b2 = data[i + 2] as u32;
    let b3 = data[i + 3] as u32;
    let x = b0 * 16777216 + b1 * 65536 + b2 * 256 + b3;
    proof {
        let tail = data@.subrange(i as int, data@.len() as int);
        assert(tail[0] == data@[i as int]);
        assert(tail[1] == data@[i + 1]);
        assert(tail[2] == data@[i + 2]);
        assert(tail[3] == data@[i + 3]);
        assert(tail.subrange(4, tail.len() as int) =~= data@.subrange(
            i + 4,
            data@.len() as int,
        ));
    }
    Some((x, i + 4))
}

// ---------------------------------------------------------------------
// 64-bit integers, big-endian
// ---------------------------------------------------------------------

/// The eight big-endian bytes of `x`.
pub open spec fn enc_u64(x: u64) -> Seq<u8> {
    enc_u32((x / 4294967296) as u32) + enc_u32((x % 4294967296) as u32)
}

/// Reads eight big-endian bytes; yields the value and the rest of the input.
pub open spec fn dec_u64(s: Seq<u8>) -> Option<(u64, Seq<u8>)> {
    match dec_u32(s) {
        None => None,
        Some((hi, rest)) => match dec_u32(rest) {
            None => None,
            Some((lo, rest2)) => Some(((hi * 4294967296 + lo) as u64, rest2)),
        },
    }
}

/// Big-endian layout of a 64-bit value reads back to itself.
#[verifier::spinoff_prover]
#[verifier::rlimit(100)]
pub proof fn lemma_u64_round_trip(x: u64, rest: Seq<u8>)
    ensures
        dec_u64(enc_u64(x) + rest) == Some((x, rest)),
{
    let hi = (x / 4294967296) as u32;
    let lo = (x % 4294967296) as u32;
    assert(x / 4294967296 < 4294967296) by (bit_vector);
    assert(enc_u64(x) + rest =~= enc_u32(hi) + (enc_u32(lo) + rest));
    lemma_u32_round_trip(hi, enc_u32(lo) + rest);
    lemma_u32_round_trip(lo, rest);
    assert((x / 4294967296) * 4294967296 + (x % 4294967296) == x) by (bit_vector);
}

/// Appends the eight big-endian bytes of `x` to `out`.
pub fn encode_u64(x: u64, out: &mut Vec<u8>)
    ensures
        final(out)@ == old(out)@ + enc_u64(x),
{
    proof {
        assert(x / 4294967296 < 4294967296) by (bit_vector);
    }
    encode_u32((x / 4294967296) as u32, out);
    encode_u32((x % 4294967296) as u32, out);
    assert(final(out)@ =~= old(out)@ + enc_u64(x));
}

/// Reads a 64-bit value at offset `i`, returning it with the offset that
/// follows it.
pub fn decode_u64(data: &Vec<u8>, i: usize) -> (r: Option<(u64, usize)>)
    requires
        i <= data@.len(),
    ensures
        (match r {
            Some((x, j)) => {
                &&& dec_u64(data@.subrange(i as int, data@.len() as int)) matches Some(p)
                &&& p.0 == x
                &&& i < j <= data@.len()
                &&& p.1 == data@.subrange(j as int, data@.len() as int)
            },
            None => dec_u64(data@.subrange(i as int, data@.len() as int)) is None,
        }),
{
    let (hi, j) = match decode_u32(data, i) {
        Some(p) => p,
        None => return None,
    };
    let (lo, k) = match decode_u32(data, j) {
        Some(p) => p,
        None => return None,
    };
    let x = hi as u64 * 4294967296 + lo as u64;
    Some((x, k))
}

// ---------------------------------------------------------------------
// Digests
// ---------------------------------------------------------------------

/// The 32 bytes of a digest: its four words, big-endian, in order.
pub open spec fn enc_digest(d: Digest) -> Seq<u8> {
    enc_u64(d.w0) + enc_u64(d.w1) + enc_u64(d.w2) + enc_u64(d.w3)
}

/// Reads a 32-byte digest; yields it and the rest of the input.
pub open spec fn dec_digest(s: Seq<u8>) -> Option<(Digest, Seq<u8>)> {
    match dec_u64(s) {
        None => None,
        Some((w0, r0)) => match dec_u64(r0) {
            None => None,
            Some((w1, r1)) => match dec_u64(r1) {
                None => None,
                Some((w2, r2)) => match dec_u64(r2) {
                    None => None,
                    Some((w3, r3)) => Some((Digest { w0, w1, w2, w3 }, r3)),
                },
            },
        },
    }
}

/// The 32-byte layout of a digest reads back to itself.
#[verifier::spinoff_prover]
#[verifier::rlimit(100)]
pub proof fn lemma_digest_round_trip(d: Digest, rest: Seq<u8>)
    ensures
        dec_digest(enc_digest(d) + rest) == Some((d, rest)),
{
    assert(enc_digest(d) + rest =~= enc_u64(d.w0) + (enc_u64(d.w1) + (enc_u64(d.w2) + (enc_u64(
        d.w3,
    ) + rest))));
    lemma_u64_round_trip(d.w0, enc_u64(d.w1) + (enc_u64(d.w2) + (enc_u64(d.w3) + rest)));
    lemma_u64_round_trip(d.w1, enc_u64(d.w2) + (enc_u64(d.w3) + rest));
    lemma_u64_round_trip(d.w2, enc_u64(d.w3) + rest);
    lemma_u64_round_trip(d.w3, rest);
}

/// Appends the 32 bytes of `d` to `out`.
pub fn encode_digest(d: &Digest, out: &mut Vec<u8>)
    ensures
        final(out)@ == old(out)@ + enc_digest(*d),
{
    encode_u64(d.w0, out);
    encode_u64(d.w1, out);
    encode_u64(d.w2, out);
    encode_u64(d.w3, out);
    assert(final(out)@ =~= old(out)@ + enc_digest(*d));
}

/// Reads a digest at offset `i`, returning it with the offset that
/// follows it.
pub fn decode_digest(data: &Vec<u8>, i: usize) -> (r: Option<(Digest, usize)>)
    requires
        i <= data@.len(),
    ensures
        (match r {
            Some((d, j)) => {
                &&& dec_digest(data@.subrange(i as int, data@.len() as int)) matches Some(p)
                &&& p.0 == d
                &&& i < j <= data@.len()
                &&& p.1 == data@.subrange(j as int, data@.len() as int)
            },
            None => dec_digest(data@.subrange(i as int, data@.len() as int)) is None,
        }),
{
    let (w0, j0) = match decode_u64(data, i) {
        Some(p) => p,
        None => return None,
    };
    let (w1, j1) = match decode_u64(data, j0) {
        Some(p) => p,
        None => return None,
    };
    let (w2, j2) = match decode_u64(data, j1) {
        Some(p) => p,
        None => return None,
    };
    let (w3, j3) = match decode_u64(data, j2) {
        Some(p) => p,
        None => return None,
    };
    Some((Digest { w0, w1, w2, w3 }, j3))
}

// ---------------------------------------------------------------------
// Length-prefixed byte strings
// ---------------------------------------------------------------------

/// Whether a byte string is short enough for its 32-bit length prefix.
pub open spec fn fits_u32(len: nat) -> bool {
    len <= u32::MAX
}

/// A 32-bit length prefix followed by the bytes themselves.
pub open spec fn enc_bytes(b: Seq<u8>) -> Seq<u8>
    recommends
        fits_u32(b.len()),
{
    enc_u32(b.len() as u32) + b
}

/// Reads a length-prefixed byte string; yields it and the rest of the
/// input.
pub open spec fn dec_bytes(s: Seq<u8>) -> Option<(Seq<u8>, Seq<u8>)> {
    match dec_u32(s) {
        None => None,
        Some((n, rest)) => if rest.len() < n {
            None
        } else {
            Some((rest.subrange(0, n as int), rest.subrange(n as int, rest.len() as int)))
        },
    }
}

/// The length-prefixed layout of a byte string reads back to itself.
pub proof fn lemma_bytes_round_trip(b: Seq<u8>, rest: Seq<u8>)
    requires
        fits_u32(b.len()),
    ensures
        dec_bytes(enc_bytes(b) + rest) == Some((b, rest)),
{
    let n = b.len() as u32;
    assert(enc_bytes(b) + rest =~= enc_u32(n) + (b + rest));
    lemma_u32_round_trip(n, b + rest);
    assert((b + rest).subrange(0, n as int) =~= b);
    assert((b + rest).subrange(n as int, (b + rest).len() as int) =~= rest);
}

/// Appends the length prefix and bytes of `b` to `out`.
pub fn encode_bytes(b: &Vec<u8>, out: &mut Vec<u8>)
    requires
        fits_u32(b@.len()),
    ensures
        final(out)@ == old(out)@ + enc_bytes(b@),
{
    encode_u32(b.len() as u32, out);
    let mut k: usize = 0;
    while k < b.len()
        invariant
            k <= b@.len(),
            out@ == old(out)@ + enc_u32(b@.len() as u32) + b@.subrange(0, k as int),
        decreases b@.len() - k,
    {
        out.push(b[k]);
        k = k + 1;
        assert(out@ =~= old(out)@ + enc_u32(b@.len() as u32) + b@.subrange(0, k as int));
    }
    assert(final(out)@ =~= old(out)@ + enc_bytes(b@));
}

/// Reads a length-prefixed byte string at offset `i`, returning it with
/// the offset that follows it.
pub fn decode_bytes(data: &Vec<u8>, i: usize) -> (r: Option<(Vec<u8>, usize)>)
    requires
        i <= data@.len(),
    ensures
        (match r {
            Some((b, j)) => {
                &&& dec_bytes(data@.subrange(i as int, data@.len() as int)) matches Some(p)
                &&& p.0 == b@
                &&& i < j <= data@.len()
                &&& p.1 == data@.subrange(j as int, data@.len() as int)
            },
            None => dec_bytes(data@.subrange(i as int, data@.len() as int)) is None,
        }),
{
    let (n, j) = match decode_u32(data, i) {
        Some(p) => p,
        None => return None,
    };
    if data.len() - j < n as usize {
        return None;
    }
    let mut b: Vec<u8> = Vec::new();
    let mut k: usize = 0;
    while k < n as usize
        invariant
            k <= n,
            j + n <= data@.len(),
            data@.len() <= usize::MAX,
            b@ == data@.subrange(j as int, j + k as int),
        decreases n - k,
    {
        b.push(data[j + k]);
        k = k + 1;
        assert(b@ =~= data@.subrange(j as int, j + k as int));
    }
    proof {
        let tail = data@.subrange(i as int, data@.len() as int);
        let p = dec_u32(tail).unwrap();
        assert(p.1 =~= data@.subrange(i + 4, data@.len() as int));
        assert(p.1.subrange(0, n as int) =~= data@.subrange(j as int, j + n as int));
        assert(p.1.subrange(n as int, p.1.len() as int) =~= data@.subrange(
            j + n as int,
            data@.len() as int,
        ));
    }
    Some((b, j + n as usize))
}

// ---------------------------------------------------------------------
// Digest lists
// ---------------------------------------------------------------------

/// The digests of `l`, back to back, without a count.
pub open spec fn enc_digest_seq(l: Seq<Digest>) -> Seq<u8>
    decreases l.len(),
{
    if l.len() == 0 {
        Seq::empty()
    } else {
        enc_digest(l[0]) + enc_digest_seq(l.drop_first())
    }
}

/// A 32-bit count followed by that many digests.
pub open spec fn enc_digest_list(l: Seq<Digest>) -> Seq<u8>
    recommends
        fits_u32(l.len()),
{
    enc_u32(l.len() as u32) + enc_digest_seq(l)
}

/// Reads `n` digests; yields them and the rest of the input.
pub open spec fn dec_digest_seq(n: nat, s: Seq<u8>) -> Option<(Seq<Digest>, Seq<u8>)>
    decreases n,
{
    if n == 0 {
        Some((Seq::empty(), s))
    } else {
        match dec_digest(s) {
            None => None,
            Some((d, rest)) => match dec_digest_seq((n - 1) as nat, rest) {
                None => None,
                Some((l, rest2)) => Some((seq![d] + l, rest2)),
            },
        }
    }
}

/// Reads a counted digest list; yields it and the rest of the input.
pub open spec fn dec_digest_list(s: Seq<u8>) -> Option<(Seq<Digest>, Seq<u8>)> {
    match dec_u32(s) {
        None => None,
        Some((n, rest)) => dec_digest_seq(n as nat, rest),
    }
}

/// A back-to-back digest sequence reads back to itself.
#[verifier::rlimit(50)]
#[verifier::spinoff_prover]
pub proof fn lemma_digest_seq_round_trip(l: Seq<Digest>, rest: Seq<u8>)
    ensures
        dec_digest_seq(l.len(), enc_digest_seq(l) + rest) == Some((l, rest)),
    decreases l.len(),
{
    if l.len() == 0 {
        assert(enc_digest_seq(l) + rest =~= rest);
        assert(l =~= Seq::<Digest>::empty());
    } else {
        let tail = l.drop_first();
        assert(enc_digest_seq(l) + rest =~= enc_digest(l[0]) + (enc_digest_seq(tail) + rest));
        lemma_digest_round_trip(l[0], enc_digest_seq(tail) + rest);
        lemma_digest_seq_round_trip(tail, rest);
        assert(seq![l[0]] + tail =~= l);
    }
}

/// A counted digest list reads back to itself.
#[verifier::spinoff_prover]
#[verifier::rlimit(100)]
pub proof fn lemma_digest_list_round_trip(l: Seq<Digest>, rest: Seq<u8>)
    requires
        fits_u32(l.len()),
    ensures
        dec_digest_list(enc_digest_list(l) + rest) == Some((l, rest)),
{
    vstd::seq_lib::lemma_concat_associative(enc_u32(l.len() as u32), enc_digest_seq(l), rest);
    lemma_u32_round_trip(l.len() as u32, enc_digest_seq(l) + rest);
    lemma_digest_seq_round_trip(l, rest);
}

/// Appends the counted digest list `l` to `out`.
#[verifier::spinoff_prover]
#[verifier::rlimit(100)]
pub fn encode_digest_list(l: &Vec<Digest>, out: &mut Vec<u8>)
    requires
        fits_u32(l@.len()),
    ensures
        final(out)@ == old(out)@ + enc_digest_list(l@),
{
    encode_u32(l.len() as u32, out);
    let mut k: usize = 0;
    while k < l.len()
        invariant
            k <= l@.len(),
            out@ == old(out)@ + enc_u32(l@.len() as u32) + enc_digest_seq(l@.subrange(0, k as int)),
        decreases l@.len() - k,
    {
        encode_digest(&l[k], out);
        k = k + 1;
        proof {
            lemma_digest_seq_snoc(l@.subrange(0, k as int));
            assert(l@.subrange(0, k as int).drop_last() =~= l@.subrange(0, k - 1));
            assert(out@ =~= old(out)@ + enc_u32(l@.len() as u32) + enc_digest_seq(
                l@.subrange(0, k as int),
            ));
        }
    }
    assert(l@.subrange(0, l@.len() as int) =~= l@);
    assert(final(out)@ =~= old(out)@ + enc_digest_list(l@));
}

/// Splitting the last digest off a nonempty sequence splits its layout.
#[verifier::spinoff_prover]
#[verifier::rlimit(100)]
proof fn lemma_digest_seq_snoc(l: Seq<Digest>)
    requires
        l.len() > 0,
    ensures
        enc_digest_seq(l) == enc_digest_seq(l.drop_last()) + enc_digest(l.last()),
    decreases l.len(),
{
    if l.len() == 1 {
        assert(l.drop_first() =~= Seq::<Digest>::empty());
        assert(l.drop_last() =~= Seq::<Digest>::empty());
        assert(enc_digest_seq(l.drop_last()) + enc_digest(l.last()) =~= enc_digest(l.last())
            + enc_digest_seq(l.drop_first()));
        assert(enc_digest(l[0]) == enc_digest(l.last()));
    } else {
        let tail = l.drop_first();
        lemma_digest_seq_snoc(tail);
        assert(tail.drop_last() =~= l.drop_last().drop_first());
        assert(tail.last() == l.last());
        assert(l.drop_last()[0] == l[0]);
        assert(l.drop_last().len() > 0);
        assert(enc_digest_seq(l.drop_last()) == enc_digest(l[0]) + enc_digest_seq(
            l.drop_last().drop_first(),
        ));
        vstd::seq_lib::lemma_concat_associative(
            enc_digest(l[0]),
            enc_digest_seq(tail.drop_last()),
            enc_digest(tail.last()),
        );
    }
}

/// Reads a counted digest list at offset `i`, returning it with the
/// offset that follows it.
pub fn decode_digest_list(data: &Vec<u8>, i: usize) -> (r: Option<(Vec<Digest>, usize)>)
    requires
        i <= data@.len(),
    ensures
        (match r {
            Some((l, j)) => {
                &&& dec_digest_list(data@.subrange(i as int, data@.len() as int)) matches Some(p)
                &&& p.0 == l@
                &&& i < j <= data@.len()
                &&& p.1 == data@.subrange(j as int, data@.len() as int)
            },
            None => dec_digest_list(data@.subrange(i as int, data@.len() as int)) is None,
        }),
{
    let (n, j0) = match decode_u32(data, i) {
        Some(p) => p,
        None => return None,
    };
    let ghost orig = data@.subrange(j0 as int, data@.len() as int);
    let mut l: Vec<Digest> = Vec::new();
    let mut j: usize = j0;
    let mut k: u32 = 0;
    while k < n
        invariant
            k <= n,
            i < j0 <= j <= data@.len(),
            l@.len() == k,
            orig == data@.subrange(j0 as int, data@.len() as int),
            dec_u32(data@.subrange(i as int, data@.len() as int)) == Some((n, orig)),
            (match dec_digest_seq((n - k) as nat, data@.subrange(j as int, data@.len() as int)) {
                None => dec_digest_seq(n as nat, orig) is None,
                Some(p) => dec_digest_seq(n as nat, orig) == Some((l@ + p.0, p.1)),
            }),
        decreases n - k,
    {
        let ghost pre = data@.subrange(j as int, data@.len() as int);
        let (d, j2) = match decode_digest(data, j) {
            Some(p) => p,
            None => {
                proof {
                    assert(dec_digest_seq((n - k) as nat, pre) is None);
                }
                return None;
            },
        };
        let ghost lpre = l@;
        l.push(d);
        j = j2;
        k = k + 1;
        proof {
            let post = data@.subrange(j as int, data@.len() as int);
            assert(dec_digest_seq((n - k + 1) as nat, pre) == (match dec_digest_seq(
                (n - k) as nat,
                post,
            ) {
                None => None::<(Seq<Digest>, Seq<u8>)>,
                Some(q) => Some((seq![d] + q.0, q.1)),
            }));
            if let Some(q) = dec_digest_seq((n - k) as nat, post) {
                assert(lpre + (seq![d] + q.0) =~= l@ + q.0);
            }
        }
    }
    proof {
        let cur = data@.subrange(j as int, data@.len() as int);
        assert(dec_digest_seq(0nat, cur) == Some((Seq::<Digest>::empty(), cur)));
        assert(l@ + Seq::<Digest>::empty() =~= l@);
    }
    Some((l, j))
}

// ---------------------------------------------------------------------
// Byte-string lists
// ---------------------------------------------------------------------

/// Whether every byte string of a list, and the list itself, is short
/// enough for a 32-bit length prefix.
pub open spec fn wf_bytes_list(l: Seq<Seq<u8>>) -> bool {
    fits_u32(l.len()) && (forall|k: int| 0 <= k < l.len() ==> fits_u32(#[trigger] l[k].len()))
}

/// The byte strings of `l`, each length-prefixed, back to back, without a
/// count.
pub open spec fn enc_bytes_seq(l: Seq<Seq<u8>>) -> Seq<u8>
    decreases l.len(),
{
    if l.len() == 0 {
        Seq::empty()
    } else {
        enc_bytes(l[0]) + enc_bytes_seq(l.drop_first())
    }
}

/// A 32-bit count followed by that many length-prefixed byte strings.
pub open spec fn enc_bytes_list(l: Seq<Seq<u8>>) -> Seq<u8>
    recommends
        wf_bytes_list(l),
{
    enc_u32(l.len() as u32) + enc_bytes_seq(l)
}

/// Reads `n` length-prefixed byte strings; yields them and the rest of
/// the input.
pub open spec fn dec_bytes_seq(n: nat, s: Seq<u8>) -> Option<(Seq<Seq<u8>>, Seq<u8>)>
    decreases n,
{
    if n == 0 {
        Some((Seq::empty(), s))
    } else {
        match dec_bytes(s) {
            None => None,
            Some((b, rest)) => match dec_bytes_seq((n - 1) as nat, rest) {
                None => None,
                Some((l, rest2)) => Some((seq![b] + l, rest2)),
            },
        }
    }
}

/// Reads a counted list of byte strings; yields it and the rest of the
/// input.
pub open spec fn dec_bytes_list(s: Seq<u8>) -> Option<(Seq<Seq<u8>>, Seq<u8>)> {
    match dec_u32(s) {
        None => None,
        Some((n, rest)) => dec_bytes_seq(n as nat, rest),
    }
}

/// A back-to-back byte-string sequence reads back to itself.
#[verifier::spinoff_prover]
#[verifier::rlimit(100)]
pub proof fn lemma_bytes_seq_round_trip(l: Seq<Seq<u8>>, rest: Seq<u8>)
    requires
        forall|k: int| 0 <= k < l.len() ==> fits_u32(#[trigger] l[k].len()),
    ensures
        dec_bytes_seq(l.len(), enc_bytes_seq(l) + rest) == Some((l, rest)),
    decreases l.len(),
{
    if l.len() == 0 {
        assert(enc_bytes_seq(l) + rest =~= rest);
        assert(l =~= Seq::<Seq<u8>>::empty());
    } else {
        let tail = l.drop_first();
        assert(enc_bytes_seq(l) + rest =~= enc_bytes(l[0]) + (enc_bytes_seq(tail) + rest));
        lemma_bytes_round_trip(l[0], enc_bytes_seq(tail) + rest);
        lemma_bytes_seq_round_trip(tail, rest);
        assert(seq![l[0]] + tail =~= l);
    }
}

/// A counted byte-string list reads back to itself.
pub proof fn lemma_bytes_list_round_trip(l: Seq<Seq<u8>>, rest: Seq<u8>)
    requires
        wf_bytes_list(l),
    ensures
        dec_bytes_list(enc_bytes_list(l) + rest) == Some((l, rest)),
{
    assert(enc_bytes_list(l) + rest =~= enc_u32(l.len() as u32) + (enc_bytes_seq(l) + rest));
    lemma_u32_round_trip(l.len() as u32, enc_bytes_seq(l) + rest);
    lemma_bytes_seq_round_trip(l, rest);
}

/// Splitting the last byte string off a nonempty list splits its layout.
#[verifier::spinoff_prover]
#[verifier::rlimit(100)]
proof fn lemma_bytes_seq_snoc(l: Seq<Seq<u8>>)
    requires
        l.len() > 0,
    ensures
        enc_bytes_seq(l) == enc_bytes_seq(l.drop_last()) + enc_bytes(l.last()),
    decreases l.len(),
{
    if l.len() == 1 {
        assert(l.drop_first() =~= Seq::<Seq<u8>>::empty());
        assert(l.drop_last() =~= Seq::<Seq<u8>>::empty());
        assert(enc_bytes_seq(l.drop_last()) + enc_bytes(l.last()) =~= enc_bytes(l.last())
            + enc_bytes_seq(l.drop_first()));
        assert(enc_bytes(l[0]) == enc_bytes(l.last()));
    } else {
        let tail = l.drop_first();
        lemma_bytes_seq_snoc(tail);
        assert(tail.drop_last() =~= l.drop_last().drop_first());
        assert(tail.last() == l.last());
        assert(l.drop_last()[0] == l[0]);
        assert(l.drop_last().len() > 0);
        assert(enc_bytes_seq(l.drop_last()) == enc_bytes(l[0]) + enc_bytes_seq(
            l.drop_last().drop_first(),
        ));
        vstd::seq_lib::lemma_concat_associative(
            enc_bytes(l[0]),
            enc_bytes_seq(tail.drop_last()),
            enc_bytes(tail.last()),
        );
    }
}

/// Appends the counted byte-string list `l` to `out`.
#[verifier::spinoff_prover]
#[verifier::rlimit(100)]
pub fn encode_bytes_list(l: &Vec<Vec<u8>>, out: &mut Vec<u8>)
    requires
        wf_bytes_list(l.deep_view()),
    ensures
        final(out)@ == old(out)@ + enc_bytes_list(l.deep_view()),
{
    let ghost lv = l.deep_view();
    encode_u32(l.len() as u32, out);
    let mut k: usize = 0;
    while k < l.len()
        invariant
            k <= lv.len(),
            lv == l.deep_view(),
            lv.len() == l@.len(),
            forall|m: int| 0 <= m < lv.len() ==> fits_u32(#[trigger] lv[m].len()),
            out@ == old(out)@ + enc_u32(lv.len() as u32) + enc_bytes_seq(lv.subrange(0, k as int)),
        decreases lv.len() - k,
    {
        assert(l@[k as int]@ == lv[k as int]);
        encode_bytes(&l[k], out);
        k = k + 1;
        proof {
            lemma_bytes_seq_snoc(lv.subrange(0, k as int));
            assert(lv.subrange(0, k as int).drop_last() =~= lv.subrange(0, k - 1));
            assert(out@ =~= old(out)@ + enc_u32(lv.len() as u32) + enc_bytes_seq(
                lv.subrange(0, k as int),
            ));
        }
    }
    assert(lv.subrange(0, lv.len() as int) =~= lv);
    assert(final(out)@ =~= old(out)@ + enc_bytes_list(lv));
}

/// Reads a counted byte-string list at offset `i`, returning it with the
/// offset that follows it.
pub fn decode_bytes_list(data: &Vec<u8>, i: usize) -> (r: Option<(Vec<Vec<u8>>, usize)>)
    requires
        i <= data@.len(),
    ensures
        (match r {
            Some((l, j)) => {
                &&& dec_bytes_list(data@.subrange(i as int, data@.len() as int)) matches Some(p)
                &&& p.0 == l.deep_view()
                &&& i < j <= data@.len()
                &&& p.1 == data@.subrange(j as int, data@.len() as int)
            },
            None => dec_bytes_list(data@.subrange(i as int, data@.len() as int)) is None,
        }),
{
    let (n, j0) = match decode_u32(data, i) {
        Some(p) => p,
        None => return None,
    };
    let ghost orig = data@.subrange(j0 as int, data@.len() as int);
    let mut l: Vec<Vec<u8>> = Vec::new();
    let mut j: usize = j0;
    let mut k: u32 = 0;
    while k < n
        invariant
            k <= n,
            i < j0 <= j <= data@.len(),
            l@.len() == k,
            orig == data@.subrange(j0 as int, data@.len() as int),
            dec_u32(data@.subrange(i as int, data@.len() as int)) == Some((n, orig)),
            (match dec_bytes_seq((n - k) as nat, data@.subrange(j as int, data@.len() as int)) {
                None => dec_bytes_seq(n as nat, orig) is None,
                Some(p) => dec_bytes_seq(n as nat, orig) == Some((l.deep_view() + p.0, p.1)),
            }),
        decreases n - k,
    {
        let ghost pre = data@.subrange(j as int, data@.len() as int);
        let (b, j2) = match decode_bytes(data, j) {
            Some(p) => p,
            None => {
                proof {
                    assert(dec_bytes_seq((n - k) as nat, pre) is None);
                }
                return None;
            },
        };
        let ghost lpre = l.deep_view();
        let ghost bv = b@;
        l.push(b);
        j = j2;
        k = k + 1;
        proof {
            assert(l.deep_view() =~~= lpre.push(bv));
            let post = data@.subrange(j as int, data@.len() as int);
            assert(dec_bytes_seq((n - k + 1) as nat, pre) == (match dec_bytes_seq(
                (n - k) as nat,
                post,
            ) {
                None => None::<(Seq<Seq<u8>>, Seq<u8>)>,
                Some(q) => Some((seq![bv] + q.0, q.1)),
            }));
            if let Some(q) = dec_bytes_seq((n - k) as nat, post) {
                assert(lpre + (seq![bv] + q.0) =~= l.deep_view() + q.0);
            }
        }
    }
    proof {
        let cur = data@.subrange(j as int, data@.len() as int);
        assert(dec_bytes_seq(0nat, cur) == Some((Seq::<Seq<u8>>::empty(), cur)));
        assert(l.deep_view() + Seq::<Seq<u8>>::empty() =~= l.deep_view());
    }
    Some((l, j))
}

// ---------------------------------------------------------------------
// Headers and blocks
// ---------------------------------------------------------------------

/// The fixed 168-byte layout of a header: height, the five digests and
/// the global slot, in field order.
#[verifier::opaque]
pub open spec fn enc_header(h: Header) -> Seq<u8> {
    enc_u32(h.height) + (enc_digest(h.state_hash) + (enc_digest(h.prev_hash) + (enc_u32(
        h.global_slot,
    ) + (enc_digest(h.coinbase_receiver) + (enc_digest(h.staged_hash) + enc_digest(
        h.snarked_ledger_hash,
    ))))))
}

/// Reads a header; yields it and the rest of the input.
pub open spec fn dec_header(s: Seq<u8>) -> Option<(Header, Seq<u8>)> {
    match dec_u32(s) {
        None => None,
        Some((height, r0)) => match dec_digest(r0) {
            None => None,
            Some((state_hash, r1)) => match dec_digest(r1) {
                None => None,
                Some((prev_hash, r2)) => match dec_u32(r2) {
                    None => None,
                    Some((global_slot, r3)) => match dec_digest(r3) {
                        None => None,
                        Some((coinbase_receiver, r4)) => match dec_digest(r4) {
                            None => None,
                            Some((staged_hash, r5)) => match dec_digest(r5) {
                                None => None,
                                Some((snarked_ledger_hash, r6)) => Some(
                                    (
                                        Header {
                                            height,
                                            state_hash,
                                            prev_hash,
                                            global_slot,
                                            coinbase_receiver,
                                            staged_hash,
                                            snarked_ledger_hash,
                                        },
                                        r6,
                                    ),
                                ),
                            },
                        },
                    },
                },
            },
        },
    }
}

/// The header layout reads back to itself.
#[verifier::rlimit(100)]
#[verifier::spinoff_prover]
pub proof fn lemma_header_round_trip(h: Header, rest: Seq<u8>)
    ensures
        dec_header(enc_header(h) + rest) == Some((h, rest)),
{
    let t6 = rest;
    let t5 = enc_digest(h.snarked_ledger_hash) + t6;
    let t4 = enc_digest(h.staged_hash) + t5;
    let t3 = enc_digest(h.coinbase_receiver) + t4;
    let t2 = enc_u32(h.global_slot) + t3;
    let t1 = enc_digest(h.prev_hash) + t2;
    let t0 = enc_digest(h.state_hash) + t1;
    let s = enc_u32(h.height) + t0;
    reveal(enc_header);
    let e7 = enc_digest(h.snarked_ledger_hash);
    let b6 = enc_digest(h.staged_hash) + e7;
    let b5 = enc_digest(h.coinbase_receiver) + b6;
    let b4 = enc_u32(h.global_slot) + b5;
    let b3 = enc_digest(h.prev_hash) + b4;
    let b2 = enc_digest(h.state_hash) + b3;
    vstd::seq_lib::lemma_concat_associative(enc_digest(h.staged_hash), e7, rest);
    vstd::seq_lib::lemma_concat_associative(enc_digest(h.coinbase_receiver), b6, rest);
    vstd::seq_lib::lemma_concat_associative(enc_u32(h.global_slot), b5, rest);
    vstd::seq_lib::lemma_concat_associative(enc_digest(h.prev_hash), b4, rest);
    vstd::seq_lib::lemma_concat_associative(enc_digest(h.state_hash), b3, rest);
    vstd::seq_lib::lemma_concat_associative(enc_u32(h.height), b2, rest);
    assert(enc_header(h) + rest == s);
    lemma_u32_round_trip(h.height, t0);
    assert(dec_u32(s) == Some((h.height, t0)));
    lemma_digest_round_trip(h.state_hash, t1);
    assert(dec_digest(t0) == Some((h.state_hash, t1)));
    lemma_digest_round_trip(h.prev_hash, t2);
    assert(dec_digest(t1) == Some((h.prev_hash, t2)));
    lemma_u32_round_trip(h.global_slot, t3);
    assert(dec_u32(t2) == Some((h.global_slot, t3)));
    lemma_digest_round_trip(h.coinbase_receiver, t4);
    assert(dec_digest(t3) == Some((h.coinbase_receiver, t4)));
    lemma_digest_round_trip(h.staged_hash, t5);
    assert(dec_digest(t4) == Some((h.staged_hash, t5)));
    lemma_digest_round_trip(h.snarked_ledger_hash, t6);
    assert(dec_digest(t5) == Some((h.snarked_ledger_hash, t6)));
    assert(dec_header(s) == Some((h, rest)));
}

/// Appends the header layout of `h` to `out`.
#[verifier::rlimit(100)]
#[verifier::spinoff_prover]
pub fn encode_header(h: &Header, out: &mut Vec<u8>)
    ensures
        final(out)@ == old(out)@ + enc_header(*h),
{
    encode_u32(h.height, out);
    encode_digest(&h.state_hash, out);
    encode_digest(&h.prev_hash, out);
    encode_u32(h.global_slot, out);
    encode_digest(&h.coinbase_receiver, out);
    encode_digest(&h.staged_hash, out);
    encode_digest(&h.snarked_ledger_hash, out);
    proof {
        reveal(enc_header);
        assert(final(out)@ =~= old(out)@ + enc_header(*h));
    }
}

/// Reads a header at offset `i`, returning it with the offset that
/// follows it.
pub fn decode_header(data: &Vec<u8>, i: usize) -> (r: Option<(Header, usize)>)
    requires
        i <= data@.len(),
    ensures
        (match r {
            Some((h, j)) => {
                &&& dec_header(data@.subrange(i as int, data@.len() as int)) matches Some(p)
                &&& p.0 == h
                &&& i < j <= data@.len()
                &&& p.1 == data@.subrange(j as int, data@.len() as int)
            },
            None => dec_header(data@.subrange(i as int, data@.len() as int)) is None,
        }),
{
    let (height, j0) = match decode_u32(data, i) {
        Some(p) => p,
        None => return None,
    };
    let (state_hash, j1) = match decode_digest(data, j0) {
        Some(p) => p,
        None => return None,
    };
    let (prev_hash, j2) = match decode_digest(data, j1) {
        Some(p) => p,
        None => return None,
    };
    let (global_slot, j3) = match decode_u32(data, j2) {
        Some(p) => p,
        None => return None,
    };
    let (coinbase_receiver, j4) = match decode_digest(data, j3) {
        Some(p) => p,
        None => return None,
    };
    let (staged_hash, j5) = match decode_digest(data, j4) {
        Some(p) => p,
        None => return None,
    };
    let (snarked_ledger_hash, j6) = match decode_digest(data, j5) {
        Some(p) => p,
        None => return None,
    };
    Some(
        (
            Header {
                height,
                state_hash,
                prev_hash,
                global_slot,
                coinbase_receiver,
                staged_hash,
                snarked_ledger_hash,
            },
            j6,
        ),
    )
}

/// Whether a block's body is short enough for its length prefix.
pub open spec fn wf_block(b: BlockV) -> bool {
    fits_u32(b.body.len())
}

/// A header followed by the length-prefixed diff bytes.
#[verifier::opaque]
pub open spec fn enc_block(b: BlockV) -> Seq<u8>
    recommends
        wf_block(b),
{
    enc_header(b.header) + enc_bytes(b.body)
}

/// Reads a block; yields it and the rest of the input.
pub open spec fn dec_block(s: Seq<u8>) -> Option<(BlockV, Seq<u8>)> {
    match dec_header(s) {
        None => None,
        Some((header, r0)) => match dec_bytes(r0) {
            None => None,
            Some((body, r1)) => Some((BlockV { header, body }, r1)),
        },
    }
}

/// The block layout reads back to itself.
#[verifier::rlimit(100)]
#[verifier::spinoff_prover]
pub proof fn lemma_block_round_trip(b: BlockV, rest: Seq<u8>)
    requires
        wf_block(b),
    ensures
        dec_block(enc_block(b) + rest) == Some((b, rest)),
{
    reveal(enc_block);
    assert(enc_block(b) + rest =~= enc_header(b.header) + (enc_bytes(b.body) + rest));
    lemma_header_round_trip(b.header, enc_bytes(b.body) + rest);
    lemma_bytes_round_trip(b.body, rest);
}

/// Appends the block layout of `b` to `out`.
pub fn encode_block(b: &Block, out: &mut Vec<u8>)
    requires
        wf_block(b@),
    ensures
        final(out)@ == old(out)@ + enc_block(b@),
{
    encode_header(&b.header, out);
    encode_bytes(&b.body, out);
    proof {
        reveal(enc_block);
        vstd::seq_lib::lemma_concat_associative(old(out)@, enc_header(b@.header), enc_bytes(b@.body));
        assert(final(out)@ =~= old(out)@ + enc_block(b@));
    }
}

/// Reads a block at offset `i`, returning it with the offset that
/// follows it.
pub fn decode_block(data: &Vec<u8>, i: usize) -> (r: Option<(Block, usize)>)
    requires
        i <= data@.len(),
    ensures
        (match r {
            Some((b, j)) => {
                &&& dec_block(data@.subrange(i as int, data@.len() as int)) matches Some(p)
                &&& p.0 == b@
                &&& i < j <= data@.len()
                &&& p.1 == data@.subrange(j as int, data@.len() as int)
            },
            None => dec_block(data@.subrange(i as int, data@.len() as int)) is None,
        }),
{
    let (header, j0) = match decode_header(data, i) {
        Some(p) => p,
        None => return None,
    };
    let (body, j1) = match decode_bytes(data, j0) {
        Some(p) => p,
        None => return None,
    };
    Some((Block { header, body }, j1))
}

/// Reads a whole buffer as exactly one block, with nothing left over.
pub open spec fn dec_block_exact(s: Seq<u8>) -> Option<BlockV> {
    match dec_block(s) {
        None => None,
        Some((b, rest)) => if rest.len() == 0 {
            Some(b)
        } else {
            None
        },
    }
}

/// Decodes a whole buffer as exactly one block.
pub fn decode_block_exact(data: &Vec<u8>) -> (r: Option<Block>)
    ensures
        (match r {
            Some(b) => dec_block_exact(data@) == Some(b@),
            None => dec_block_exact(data@) is None,
        }),
{
    assert(data@.subrange(0, data@.len() as int) =~= data@);
    let (b, j) = match decode_block(data, 0) {
        Some(p) => p,
        None => return None,
    };
    if j != data.len() {
        return None;
    }
    Some(b)
}

// ---------------------------------------------------------------------
// Auxiliary replay data and ledger snapshots
// ---------------------------------------------------------------------

/// Whether every part of the auxiliary data is short enough for its
/// length prefix.
pub open spec fn wf_aux(a: AuxDataV) -> bool {
    fits_u32(a.scan_state.len()) && fits_u32(a.pending_coinbase.len()) && wf_bytes_list(a.states)
}

/// The scan state, the pending-coinbase structure and the referenced
/// protocol-state values, in order.
pub open spec fn enc_aux(a: AuxDataV) -> Seq<u8>
    recommends
        wf_aux(a),
{
    enc_bytes(a.scan_state) + enc_bytes(a.pending_coinbase) + enc_bytes_list(a.states)
}

/// Reads auxiliary data; yields it and the rest of the input.
pub open spec fn dec_aux(s: Seq<u8>) -> Option<(AuxDataV, Seq<u8>)> {
    match dec_bytes(s) {
        None => None,
        Some((scan_state, r0)) => match dec_bytes(r0) {
            None => None,
            Some((pending_coinbase, r1)) => match dec_bytes_list(r1) {
                None => None,
                Some((states, r2)) => Some(
                    (AuxDataV { scan_state, pending_coinbase, states }, r2),
                ),
            },
        },
    }
}

/// The auxiliary-data layout reads back to itself.
pub proof fn lemma_aux_round_trip(a: AuxDataV, rest: Seq<u8>)
    requires
        wf_aux(a),
    ensures
        dec_aux(enc_aux(a) + rest) == Some((a, rest)),
{
    let t1 = enc_bytes_list(a.states) + rest;
    let t0 = enc_bytes(a.pending_coinbase) + t1;
    assert(enc_aux(a) + rest =~= enc_bytes(a.scan_state) + t0);
    lemma_bytes_round_trip(a.scan_state, t0);
    lemma_bytes_round_trip(a.pending_coinbase, t1);
    lemma_bytes_list_round_trip(a.states, rest);
}

/// Appends the auxiliary-data layout of `a` to `out`.
pub fn encode_aux(a: &AuxData, out: &mut Vec<u8>)
    requires
        wf_aux(a@),
    ensures
        final(out)@ == old(out)@ + enc_aux(a@),
{
    encode_bytes(&a.scan_state, out);
    encode_bytes(&a.pending_coinbase, out);
    encode_bytes_list(&a.states, out);
    assert(final(out)@ =~= old(out)@ + enc_aux(a@));
}

/// Reads auxiliary data at offset `i`, returning it with the offset that
/// follows it.
pub fn decode_aux(data: &Vec<u8>, i: usize) -> (r: Option<(AuxData, usize)>)
    requires
        i <= data@.len(),
    ensures
        (match r {
            Some((a, j)) => {
                &&& dec_aux(data@.subrange(i as int, data@.len() as int)) matches Some(p)
                &&& p.0 == a@
                &&& i < j <= data@.len()
                &&& p.1 == data@.subrange(j as int, data@.len() as int)
            },
            None => dec_aux(data@.subrange(i as int, data@.len() as int)) is None,
        }),
{
    let (scan_state, j0) = match decode_bytes(data, i) {
        Some(p) => p,
        None => return None,
    };
    let (pending_coinbase, j1) = match decode_bytes(data, j0) {
        Some(p) => p,
        None => return None,
    };
    let (states, j2) = match decode_bytes_list(data, j1) {
        Some(p) => p,
        None => return None,
    };
    Some((AuxData { scan_state, pending_coinbase, states }, j2))
}

// ---------------------------------------------------------------------
// Block lists
// ---------------------------------------------------------------------

/// Whether every block of a list, and the list itself, is short enough
/// for its length prefixes.
pub open spec fn wf_block_seq(l: Seq<BlockV>) -> bool {
    fits_u32(l.len()) && (forall|k: int| 0 <= k < l.len() ==> wf_block(#[trigger] l[k]))
}

/// The blocks of `l`, back to back, without a count.
pub open spec fn enc_block_seq(l: Seq<BlockV>) -> Seq<u8>
    decreases l.len(),
{
    if l.len() == 0 {
        Seq::empty()
    } else {
        enc_block(l[0]) + enc_block_seq(l.drop_first())
    }
}

/// A 32-bit count followed by that many blocks.
pub open spec fn enc_block_list(l: Seq<BlockV>) -> Seq<u8>
    recommends
        wf_block_seq(l),
{
    enc_u32(l.len() as u32) + enc_block_seq(l)
}

/// Reads `n` blocks; yields them and the rest of the input.
pub open spec fn dec_block_seq(n: nat, s: Seq<u8>) -> Option<(Seq<BlockV>, Seq<u8>)>
    decreases n,
{
    if n == 0 {
        Some((Seq::empty(), s))
    } else {
        match dec_block(s) {
            None => None,
            Some((b, rest)) => match dec_block_seq((n - 1) as nat, rest) {
                None => None,
                Some((l, rest2)) => Some((seq![b] + l, rest2)),
            },
        }
    }
}

/// Reads a counted block list; yields it and the rest of the input.
pub open spec fn dec_block_list(s: Seq<u8>) -> Option<(Seq<BlockV>, Seq<u8>)> {
    match dec_u32(s) {
        None => None,
        Some((n, rest)) => dec_block_seq(n as nat, rest),
    }
}

/// A back-to-back block sequence reads back to itself.
#[verifier::spinoff_prover]
#[verifier::rlimit(100)]
pub proof fn lemma_block_seq_round_trip(l: Seq<BlockV>, rest: Seq<u8>)
    requires
        forall|k: int| 0 <= k < l.len() ==> wf_block(#[trigger] l[k]),
    ensures
        dec_block_seq(l.len(), enc_block_seq(l) + rest) == Some((l, rest)),
    decreases l.len(),
{
    if l.len() == 0 {
        assert(enc_block_seq(l) + rest =~= rest);
        assert(l =~= Seq::<BlockV>::empty());
    } else {
        let tail = l.drop_first();
        assert(enc_block_seq(l) + rest =~= enc_block(l[0]) + (enc_block_seq(tail) + rest));
        lemma_block_round_trip(l[0], enc_block_seq(tail) + rest);
        lemma_block_seq_round_trip(tail, rest);
        assert(seq![l[0]] + tail =~= l);
    }
}

/// A counted block list reads back to itself.
pub proof fn lemma_block_list_round_trip(l: Seq<BlockV>, rest: Seq<u8>)
    requires
        wf_block_seq(l),
    ensures
        dec_block_list(enc_block_list(l) + rest) == Some((l, rest)),
{
    assert(enc_block_list(l) + rest =~= enc_u32(l.len() as u32) + (enc_block_seq(l) + rest));
    lemma_u32_round_trip(l.len() as u32, enc_block_seq(l) + rest);
    lemma_block_seq_round_trip(l, rest);
}

/// Splitting the last block off a nonempty list splits its layout.
#[verifier::spinoff_prover]
#[verifier::rlimit(100)]
proof fn lemma_block_seq_snoc(l: Seq<BlockV>)
    requires
        l.len() > 0,
    ensures
        enc_block_seq(l) == enc_block_seq(l.drop_last()) + enc_block(l.last()),
    decreases l.len(),
{
    if l.len() == 1 {
        assert(l.drop_first() =~= Seq::<BlockV>::empty());
        assert(l.drop_last() =~= Seq::<BlockV>::empty());
        assert(enc_block_seq(l.drop_last()) + enc_block(l.last()) =~= enc_block(l.last())
            + enc_block_seq(l.drop_first()));
        assert(enc_block(l[0]) == enc_block(l.last()));
    } else {
        let tail = l.drop_first();
        lemma_block_seq_snoc(tail);
        assert(tail.drop_last() =~= l.drop_last().drop_first());
        assert(tail.last() == l.last());
        assert(l.drop_last()[0] == l[0]);
        assert(l.drop_last().len() > 0);
        assert(enc_block_seq(l.drop_last()) == enc_block(l[0]) + enc_block_seq(
            l.drop_last().drop_first(),
        ));
        vstd::seq_lib::lemma_concat_associative(
            enc_block(l[0]),
            enc_block_seq(tail.drop_last()),
            enc_block(tail.last()),
        );
    }
}

/// The mathematical values of a list of blocks.
pub open spec fn blocks_view(l: Seq<Block>) -> Seq<BlockV> {
    Seq::new(l.len(), |i: int| l[i]@)
}

/// Appends the counted block list `l` to `out`.
#[verifier::loop_isolation(false)]
#[verifier::spinoff_prover]
#[verifier::rlimit(100)]
pub fn encode_block_list(l: &Vec<Block>, out: &mut Vec<u8>)
    requires
        wf_block_seq(blocks_view(l@)),
    ensures
        final(out)@ == old(out)@ + enc_block_list(blocks_view(l@)),
{
    let ghost lv = blocks_view(l@);
    encode_u32(l.len() as u32, out);
    let mut k: usize = 0;
    while k < l.len()
        invariant
            k <= lv.len(),
            out@ == old(out)@ + enc_u32(lv.len() as u32) + enc_block_seq(lv.subrange(0, k as int)),
        decreases lv.len() - k,
    {
        assert(l@[k as int]@ == lv[k as int]);
        encode_block(&l[k], out);
        k = k + 1;
        proof {
            lemma_block_seq_snoc(lv.subrange(0, k as int));
            assert(lv.subrange(0, k as int).drop_last() =~= lv.subrange(0, k - 1));
            assert(lv.subrange(0, k as int).last() == lv[k - 1]);
            vstd::seq_lib::lemma_concat_associative(
                old(out)@ + enc_u32(lv.len() as u32),
                enc_block_seq(lv.subrange(0, k - 1)),
                enc_block(lv[k - 1]),
            );
        }
    }
    assert(lv.subrange(0, lv.len() as int) =~= lv);
    assert(final(out)@ =~= old(out)@ + enc_block_list(lv));
}

/// Reads a counted block list at offset `i`, returning it with the
/// offset that follows it.
#[verifier::loop_isolation(false)]
#[verifier::spinoff_prover]
#[verifier::rlimit(100)]
pub fn decode_block_list(data: &Vec<u8>, i: usize) -> (r: Option<(Vec<Block>, usize)>)
    requires
        i <= data@.len(),
    ensures
        (match r {
            Some((l, j)) => {
                &&& dec_block_list(data@.subrange(i as int, data@.len() as int)) matches Some(p)
                &&& p.0 == blocks_view(l@)
                &&& i < j <= data@.len()
                &&& p.1 == data@.subrange(j as int, data@.len() as int)
            },
            None => dec_block_list(data@.subrange(i as int, data@.len() as int)) is None,
        }),
{
    let (n, j0) = match decode_u32(data, i) {
        Some(p) => p,
        None => return None,
    };
    let ghost orig = data@.subrange(j0 as int, data@.len() as int);
    let mut l: Vec<Block> = Vec::new();
    let mut j: usize = j0;
    let mut k: u32 = 0;
    while k < n
        invariant
            k <= n,
            i < j0 <= j <= data@.len(),
            l@.len() == k,
            orig == data@.subrange(j0 as int, data@.len() as int),
            dec_u32(data@.subrange(i as int, data@.len() as int)) == Some((n, orig)),
            (match dec_block_seq((n - k) as nat, data@.subrange(j as int, data@.len() as int)) {
                None => dec_block_seq(n as nat, orig) is None,
                Some(p) => dec_block_seq(n as nat, orig) == Some((blocks_view(l@) + p.0, p.1)),
            }),
        decreases n - k,
    {
        let ghost pre = data@.subrange(j as int, data@.len() as int);
        let (b, j2) = match decode_block(data, j) {
            Some(p) => p,
            None => {
                proof {
                    assert(dec_block_seq((n - k) as nat, pre) is None);
                }
                return None;
            },
        };
        let ghost lpre = blocks_view(l@);
        let ghost bv = b@;
        l.push(b);
        j = j2;
        k = k + 1;
        proof {
            assert(blocks_view(l@) =~= lpre.push(bv));
            let post = data@.subrange(j as int, data@.len() as int);
            assert(dec_block_seq((n - k + 1) as nat, pre) == (match dec_block_seq(
                (n - k) as nat,
                post,
            ) {
                None => None::<(Seq<BlockV>, Seq<u8>)>,
                Some(q) => Some((seq![bv] + q.0, q.1)),
            }));
            if let Some(q) = dec_block_seq((n - k) as nat, post) {
                assert(lpre + (seq![bv] + q.0) =~= blocks_view(l@) + q.0);
            }
        }
    }
    proof {
        let cur = data@.subrange(j as int, data@.len() as int);
        assert(dec_block_seq(0nat, cur) == Some((Seq::<BlockV>::empty(), cur)));
        assert(blocks_view(l@) + Seq::<BlockV>::empty() =~= blocks_view(l@));
    }
    Some((l, j))
}

// ---------------------------------------------------------------------
// Hex text
// ---------------------------------------------------------------------

/// The value of one hexadecimal digit, in either case.
pub open spec fn hex_nibble(b: u8) -> Option<u8> {
    if 48 <= b <= 57 {
        Some((b - 48) as u8)
    } else if 97 <= b <= 102 {
        Some((b - 87) as u8)
    } else if 65 <= b <= 70 {
        Some((b - 55) as u8)
    } else {
        None
    }
}

/// The bytes spelled by a hex text: two digits per byte, any other
/// character or an odd length spoils the whole text.
pub open spec fn hex_bytes(s: Seq<u8>) -> Option<Seq<u8>>
    decreases s.len(),
{
    if s.len() == 0 {
        Some(Seq::empty())
    } else if s.len() == 1 {
        None
    } else {
        match (hex_nibble(s[0]), hex_nibble(s[1])) {
            (Some(hi), Some(lo)) => match hex_bytes(s.subrange(2, s.len() as int)) {
                None => None,
                Some(rest) => Some(seq![(hi * 16 + lo) as u8] + rest),
            },
            _ => None,
        }
    }
}

/// The digest spelled by a 64-digit hex text, big-endian: what the
/// append endpoint accepts as a block hash.
pub open spec fn parsed_digest(s: Seq<u8>) -> Option<Digest> {
    match hex_bytes(s) {
        None => None,
        Some(bs) => if bs.len() == 32 {
            match dec_digest(bs) {
                Some((d, _)) => Some(d),
                None => None,
            }
        } else {
            None
        },
    }
}

/// The value of one hexadecimal digit, executable.
fn hex_nibble_of(b: u8) -> (r: Option<u8>)
    ensures
        r == hex_nibble(b),
{
    if 48 <= b && b <= 57 {
        Some(b - 48)
    } else if 97 <= b && b <= 102 {
        Some(b - 87)
    } else if 65 <= b && b <= 70 {
        Some(b - 55)
    } else {
        None
    }
}

/// Parses a 64-digit hex text as a digest. Anything else — wrong
/// length, a stray character — is refused.
#[verifier::loop_isolation(false)]
pub fn parse_digest(text: &Vec<u8>) -> (r: Option<Digest>)
    ensures
        r == parsed_digest(text@),
{
    if text.len() != 64 {
        proof {
            lemma_hex_bytes_len(text@);
        }
        return None;
    }
    let mut bytes: Vec<u8> = Vec::new();
    let mut k: usize = 0;
    proof {
        assert(text@.subrange(0, 64) =~= text@);
        if let Some(rest) = hex_bytes(text@) {
            assert(Seq::<u8>::empty() + rest =~= rest);
        }
    }
    while k < 32
        invariant
            k <= 32,
            text@.len() == 64,
            bytes@.len() == k,
            (match hex_bytes(text@.subrange(2 * k, 64)) {
                None => hex_bytes(text@) is None,
                Some(rest) => hex_bytes(text@) == Some(bytes@ + rest),
            }),
        decreases 32 - k,
    {
        let ghost pre = text@.subrange(2 * k as int, 64);
        let hi = match hex_nibble_of(text[2 * k]) {
            Some(v) => v,
            None => {
                proof {
                    assert(pre[0] == text@[2 * k as int]);
                }
                return None;
            },
        };
        let lo = match hex_nibble_of(text[2 * k + 1]) {
            Some(v) => v,
            None => {
                proof {
                    assert(pre[0] == text@[2 * k as int]);
                    assert(pre[1] == text@[2 * k + 1]);
                }
                return None;
            },
        };
        let ghost bpre = bytes@;
        bytes.push(hi * 16 + lo);
        k = k + 1;
        proof {
            assert(pre[0] == text@[2 * (k - 1)]);
            assert(pre[1] == text@[2 * (k - 1) + 1]);
            assert(pre.subrange(2, pre.len() as int) =~= text@.subrange(2 * k as int, 64));
            if let Some(rest) = hex_bytes(text@.subrange(2 * k as int, 64)) {
                assert(bpre + (seq![bytes@.last()] + rest) =~= bytes@ + rest);
            }
        }
    }
    proof {
        assert(text@.subrange(64, 64).len() == 0);
        assert(hex_bytes(text@.subrange(64, 64)) == Some(Seq::<u8>::empty()));
        assert(bytes@ + Seq::<u8>::empty() =~= bytes@);
        assert(hex_bytes(text@) == Some(bytes@));
        assert(bytes@.subrange(0, bytes@.len() as int) =~= bytes@);
    }
    match decode_digest(&bytes, 0) {
        Some((d, _)) => Some(d),
        None => None,
    }
}

/// A hex text only ever spells half as many bytes as it has digits.
proof fn lemma_hex_bytes_len(s: Seq<u8>)
    ensures
        hex_bytes(s) matches Some(bs) ==> bs.len() * 2 == s.len(),
    decreases s.len(),
{
    if s.len() >= 2 {
        lemma_hex_bytes_len(s.subrange(2, s.len() as int));
    }
}

// ---------------------------------------------------------------------
// Broadcast framing
// ---------------------------------------------------------------------

/// What a gossip payload carries: the first eight bytes are the
/// transport's own header, the ninth byte tags the payload kind, and tag
/// zero means a block follows. Everything else is not a block broadcast.
pub open spec fn broadcast_block(s: Seq<u8>) -> Option<BlockV> {
    if s.len() < 9 || s[8] != 0 {
        None
    } else {
        dec_block_exact(s.subrange(9, s.len() as int))
    }
}

/// Decodes a gossip payload as a block broadcast, if that is what it is.
pub fn decode_broadcast(data: &Vec<u8>) -> (r: Option<Block>)
    ensures
        (match r {
            Some(b) => broadcast_block(data@) == Some(b@),
            None => broadcast_block(data@) is None,
        }),
{
    if data.len() < 9 {
        return None;
    }
    if data[8] != 0 {
        return None;
    }
    let (b, j) = match decode_block(data, 9) {
        Some(p) => p,
        None => return None,
    };
    if j != data.len() {
        return None;
    }
    assert(data@.subrange(j as int, data@.len() as int).len() == 0);
    Some(b)
}

} // verus!
