//! Tagged, length-framed byte preimages and their SHA-256 digests.
//!
//! A frame is a one-byte tag, the payload length as an unsigned 64-bit
//! big-endian integer, and the payload. Tags plus explicit lengths make
//! every tuple boundary unambiguous.
use vstd::prelude::*;
use vstd::utf8::encode_utf8;

use sha2::Digest;

use crate::text::push_char;

verus! {

/// The SHA-256 digest of a byte sequence.
pub uninterp spec fn sha256_digest(data: Seq<u8>) -> Seq<u8>;

/// SHA-256 of a byte slice.
///
/// Calls `sha2::Sha256::digest`. Claimed: the 32-byte result depends on the
/// bytes alone (named `sha256_digest`).
#[verifier::external_body]
pub(crate) fn sha256(data: &[u8]) -> (r: Vec<u8>)
    ensures
        r@ == sha256_digest(data@),
        r@.len() == 32,
{
    sha2::Sha256::digest(data).to_vec()
}

/// The UTF-8 bytes of a string.
pub open spec fn utf8(s: Seq<char>) -> Seq<u8> {
    encode_utf8(s)
}

/// The UTF-8 bytes of a string slice.
pub fn bytes_of(s: &str) -> (r: &[u8])
    ensures
        r@ == utf8(s@),
{
    s.as_bytes()
}

/// The last `k` base-256 digits of `n`, most significant first.
pub open spec fn be_bytes(n: nat, k: nat) -> Seq<u8>
    decreases k,
{
    if k == 0 {
        Seq::empty()
    } else {
        be_bytes(n / 256, (k - 1) as nat).push((n % 256) as u8)
    }
}

pub proof fn lemma_be_bytes_len(n: nat, k: nat)
    ensures
        be_bytes(n, k).len() == k,
    decreases k,
{
    if k > 0 {
        lemma_be_bytes_len(n / 256, (k - 1) as nat);
    }
}

fn be_bytes_exec(n: u64, k: usize) -> (r: Vec<u8>)
    ensures
        r@ == be_bytes(n as nat, k as nat),
    decreases k,
{
    if k == 0 {
        Vec::new()
    } else {
        let mut r = be_bytes_exec(n / 256, k - 1);
        r.push((n % 256) as u8);
        r
    }
}

/// `tag`, the big-endian 64-bit payload length, and the payload.
pub open spec fn frame(tag: u8, payload: Seq<u8>) -> Seq<u8> {
    seq![tag] + be_bytes(payload.len(), 8) + payload
}

/// Appends one frame.
pub fn push_frame(out: &mut Vec<u8>, tag: u8, payload: &[u8])
    ensures
        final(out)@ == old(out)@ + frame(tag, payload@),
{
    let ghost start = out@;
    out.push(tag);
    let len = be_bytes_exec(payload.len() as u64, 8);
    let mut i: usize = 0;
    while i < len.len()
        invariant
            i <= len@.len(),
            out@ == start + seq![tag] + len@.take(i as int),
        decreases len@.len() - i,
    {
        out.push(len[i]);
        i += 1;
        assert(out@ =~= start + seq![tag] + len@.take(i as int));
    }
    assert(len@.take(len@.len() as int) =~= len@);
    let mut j: usize = 0;
    while j < payload.len()
        invariant
            j <= payload@.len(),
            out@ == start + seq![tag] + len@ + payload@.take(j as int),
        decreases payload@.len() - j,
    {
        out.push(payload[j]);
        j += 1;
        assert(out@ =~= start + seq![tag] + len@ + payload@.take(j as int));
    }
    assert(payload@.take(payload@.len() as int) =~= payload@);
    assert(out@ =~= start + frame(tag, payload@));
}

/// Appends the bytes of a slice.
pub fn push_bytes(out: &mut Vec<u8>, data: &[u8])
    ensures
        final(out)@ == old(out)@ + data@,
{
    let ghost start = out@;
    let mut j: usize = 0;
    while j < data.len()
        invariant
            j <= data@.len(),
            out@ == start + data@.take(j as int),
        decreases data@.len() - j,
    {
        out.push(data[j]);
        j += 1;
        assert(out@ =~= start + data@.take(j as int));
    }
    assert(data@.take(data@.len() as int) =~= data@);
}

/// Lower-case hexadecimal digit.
pub open spec fn hex_digit(d: u8) -> char {
    if d < 10 { ((d + 48) as u8) as char } else { ((d + 87) as u8) as char }
}

/// A lower-case hexadecimal digit.
pub open spec fn lower_hex_char(c: char) -> bool {
    ('0' <= c && c <= '9') || ('a' <= c && c <= 'f')
}

/// Hexadecimal text has two lower-case digits per byte.
pub proof fn lemma_hex_shape(data: Seq<u8>)
    ensures
        hex(data).len() == 2 * data.len(),
        forall|i: int| 0 <= i < hex(data).len() ==> lower_hex_char(#[trigger] hex(data)[i]),
    decreases data.len(),
{
    if data.len() > 0 {
        lemma_hex_shape(data.drop_last());
        let b = data.last();
        let hi = b / 16;
        let lo = b % 16;
        assert(hi < 16 && lo < 16);
        assert(lower_hex_char(hex_digit(hi)));
        assert(lower_hex_char(hex_digit(lo)));
    }
}

/// Lower-case hexadecimal text of bytes, two digits per byte.
pub open spec fn hex(data: Seq<u8>) -> Seq<char>
    decreases data.len(),
{
    if data.len() == 0 {
        Seq::empty()
    } else {
        hex(data.drop_last()).push(hex_digit(data.last() / 16)).push(hex_digit(data.last() % 16))
    }
}

fn hex_char(d: u8) -> (c: char)
    requires
        d < 16,
    ensures
        c == hex_digit(d),
{
    if d < 10 { ((d + 48) as u8) as char } else { ((d + 87) as u8) as char }
}

/// Appends the lower-case hexadecimal text of `data`.
pub fn push_hex(out: &mut String, data: &[u8])
    ensures
        final(out)@ == old(out)@ + hex(data@),
{
    let ghost start = out@;
    let mut i: usize = 0;
    assert(data@.take(0) =~= Seq::<u8>::empty());
    while i < data.len()
        invariant
            i <= data@.len(),
            out@ == start + hex(data@.take(i as int)),
        decreases data@.len() - i,
    {
        let b = data[i];
        push_char(out, hex_char(b / 16));
        push_char(out, hex_char(b % 16));
        assert(data@.take(i as int + 1).drop_last() =~= data@.take(i as int));
        i += 1;
        assert(out@ =~= start + hex(data@.take(i as int)));
    }
    assert(data@.take(data@.len() as int) =~= data@);
}

/// `prefix` followed by the hexadecimal SHA-256 digest of `data`.
pub fn prefixed_digest(prefix: &str, data: &[u8]) -> (r: String)
    ensures
        r@ == prefix@ + hex(sha256_digest(data@)),
        sha256_digest(data@).len() == 32,
        r@.len() == prefix@.len() + 64,
        forall|i: int| prefix@.len() <= i < r@.len() ==> lower_hex_char(#[trigger] r@[i]),
{
    let digest = sha256(data);
    proof {
        lemma_hex_shape(sha256_digest(data@));
    }
    let mut out = crate::text::owned(prefix);
    push_hex(&mut out, digest.as_slice());
    out
}

} // verus!
