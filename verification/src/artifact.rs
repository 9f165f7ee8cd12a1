//! Canonical byte-stable artifact serialization.
//!
//! All integers are big-endian, strings and byte strings are length-prefixed
//! with a 32-bit count, and each artifact class starts with its own magic.
use crate::lexicon::{byte_views, lexicon_ok, Lexicon, LexiconError};
use crate::prior::{ProvenanceRecord, ProvenanceView};
use crate::neighborhood::NeighborhoodError;
use crate::scheme::SchemeError;
use vstd::prelude::*;
use vstd::utf8::{decode_utf8, encode_utf8, valid_utf8};

verus! {

#[derive(Clone, Copy, Debug, PartialEq, Eq, Structural)]
pub enum CookObjectiveDescriptor {
    ExpectedDistinguishingAtoms,
}

#[derive(Clone, Copy, Debug, PartialEq, Eq, Structural)]
pub enum CookStatus {
    ExactRelativeToPrior,
    ApproximateRelativeToPrior,
}

#[derive(Clone, Debug, PartialEq, Eq)]
pub enum ArtifactError {
    Truncated,
    TrailingBytes,
    BadMagic,
    InvalidUtf8,
    UnsupportedTag { what: &'static str, tag: u8 },
    CountOverflow,
    InvalidScheme(SchemeError),
    InvalidLexicon(LexiconError),
    InvalidLexiconMetadata(&'static str),
    InvalidField,
    InvalidPrior(&'static str),
    UnsupportedFallbackForFormat(&'static str),
    InvalidNeighborhood(NeighborhoodError),
}

// ---------------------------------------------------------------------------
// Encodings as mathematical byte sequences
// ---------------------------------------------------------------------------

/// `v` as four big-endian bytes.
pub open spec fn be32(v: u32) -> Seq<u8> {
    seq![(v >> 24u32) as u8, ((v >> 16u32) & 0xffu32) as u8, ((v >> 8u32) & 0xffu32) as u8, (v & 0xffu32) as u8]
}

/// `v` as sixteen big-endian bytes.
pub open spec fn be128(v: u128) -> Seq<u8> {
    be32((v >> 96u128) as u32) + be32(((v >> 64u128) & 0xffff_ffffu128) as u32) + be32(
        ((v >> 32u128) & 0xffff_ffffu128) as u32,
    ) + be32((v & 0xffff_ffffu128) as u32)
}

/// A byte string with its 32-bit length in front.
pub open spec fn enc_bytes(b: Seq<u8>) -> Seq<u8> {
    be32(b.len() as u32) + b
}

/// A string as its length-prefixed UTF-8 bytes.
pub open spec fn enc_string(s: Seq<char>) -> Seq<u8> {
    enc_bytes(encode_utf8(s))
}

/// Whether a byte string's length fits the 32-bit prefix.
pub open spec fn fits(b: Seq<u8>) -> bool {
    b.len() <= u32::MAX
}

proof fn lemma_be32_parts(b0: u8, b1: u8, b2: u8, b3: u8)
    ensures
        be32(((b0 as u32) << 24u32) | ((b1 as u32) << 16u32) | ((b2 as u32) << 8u32) | (b3 as u32)) == seq![b0, b1, b2, b3],
{
    let v = ((b0 as u32) << 24u32) | ((b1 as u32) << 16u32) | ((b2 as u32) << 8u32) | (b3 as u32);
    assert((v >> 24u32) as u8 == b0) by (bit_vector)
        requires
            v == ((b0 as u32) << 24u32) | ((b1 as u32) << 16u32) | ((b2 as u32) << 8u32) | (b3 as u32),
    ;
    assert(((v >> 16u32) & 0xffu32) as u8 == b1) by (bit_vector)
        requires
            v == ((b0 as u32) << 24u32) | ((b1 as u32) << 16u32) | ((b2 as u32) << 8u32) | (b3 as u32),
    ;
    assert(((v >> 8u32) & 0xffu32) as u8 == b2) by (bit_vector)
        requires
            v == ((b0 as u32) << 24u32) | ((b1 as u32) << 16u32) | ((b2 as u32) << 8u32) | (b3 as u32),
    ;
    assert((v & 0xffu32) as u8 == b3) by (bit_vector)
        requires
            v == ((b0 as u32) << 24u32) | ((b1 as u32) << 16u32) | ((b2 as u32) << 8u32) | (b3 as u32),
    ;
    assert(be32(v) =~= seq![b0, b1, b2, b3]);
}

/// Four bytes determine the value they encode.
pub proof fn lemma_be32_injective(v: u32, w: u32)
    requires
        be32(v) == be32(w),
    ensures
        v == w,
{
    assert(be32(v)[0] == be32(w)[0]);
    assert(be32(v)[1] == be32(w)[1]);
    assert(be32(v)[2] == be32(w)[2]);
    assert(be32(v)[3] == be32(w)[3]);
    let a0 = (v >> 24u32) as u8;
    let a1 = ((v >> 16u32) & 0xffu32) as u8;
    let a2 = ((v >> 8u32) & 0xffu32) as u8;
    let a3 = (v & 0xffu32) as u8;
    assert(v == ((a0 as u32) << 24u32) | ((a1 as u32) << 16u32) | ((a2 as u32) << 8u32) | (a3 as u32)) by (bit_vector)
        requires
            a0 == (v >> 24u32) as u8,
            a1 == ((v >> 16u32) & 0xffu32) as u8,
            a2 == ((v >> 8u32) & 0xffu32) as u8,
            a3 == (v & 0xffu32) as u8,
    ;
    assert(w == ((a0 as u32) << 24u32) | ((a1 as u32) << 16u32) | ((a2 as u32) << 8u32) | (a3 as u32)) by (bit_vector)
        requires
            a0 == (w >> 24u32) as u8,
            a1 == ((w >> 16u32) & 0xffu32) as u8,
            a2 == ((w >> 8u32) & 0xffu32) as u8,
            a3 == (w & 0xffu32) as u8,
    ;
}

proof fn lemma_be128_parts(w0: u32, w1: u32, w2: u32, w3: u32)
    ensures
        be128(((w0 as u128) << 96u128) | ((w1 as u128) << 64u128) | ((w2 as u128) << 32u128) | (w3 as u128)) == be32(w0)
            + be32(w1) + be32(w2) + be32(w3),
{
    let v = ((w0 as u128) << 96u128) | ((w1 as u128) << 64u128) | ((w2 as u128) << 32u128) | (w3 as u128);
    assert((v >> 96u128) as u32 == w0) by (bit_vector)
        requires
            v == ((w0 as u128) << 96u128) | ((w1 as u128) << 64u128) | ((w2 as u128) << 32u128) | (w3 as u128),
    ;
    assert(((v >> 64u128) & 0xffff_ffffu128) as u32 == w1) by (bit_vector)
        requires
            v == ((w0 as u128) << 96u128) | ((w1 as u128) << 64u128) | ((w2 as u128) << 32u128) | (w3 as u128),
    ;
    assert(((v >> 32u128) & 0xffff_ffffu128) as u32 == w2) by (bit_vector)
        requires
            v == ((w0 as u128) << 96u128) | ((w1 as u128) << 64u128) | ((w2 as u128) << 32u128) | (w3 as u128),
    ;
    assert((v & 0xffff_ffffu128) as u32 == w3) by (bit_vector)
        requires
            v == ((w0 as u128) << 96u128) | ((w1 as u128) << 64u128) | ((w2 as u128) << 32u128) | (w3 as u128),
    ;
}

/// Sixteen bytes determine the value they encode.
pub proof fn lemma_be128_injective(v: u128, w: u128)
    requires
        be128(v) == be128(w),
    ensures
        v == w,
{
    let v0 = (v >> 96u128) as u32;
    let v1 = ((v >> 64u128) & 0xffff_ffffu128) as u32;
    let v2 = ((v >> 32u128) & 0xffff_ffffu128) as u32;
    let v3 = (v & 0xffff_ffffu128) as u32;
    let u0 = (w >> 96u128) as u32;
    let u1 = ((w >> 64u128) & 0xffff_ffffu128) as u32;
    let u2 = ((w >> 32u128) & 0xffff_ffffu128) as u32;
    let u3 = (w & 0xffff_ffffu128) as u32;
    assert(be128(v).subrange(0, 4) =~= be32(v0));
    assert(be128(w).subrange(0, 4) =~= be32(u0));
    assert(be128(v).subrange(4, 8) =~= be32(v1));
    assert(be128(w).subrange(4, 8) =~= be32(u1));
    assert(be128(v).subrange(8, 12) =~= be32(v2));
    assert(be128(w).subrange(8, 12) =~= be32(u2));
    assert(be128(v).subrange(12, 16) =~= be32(v3));
    assert(be128(w).subrange(12, 16) =~= be32(u3));
    lemma_be32_injective(v0, u0);
    lemma_be32_injective(v1, u1);
    lemma_be32_injective(v2, u2);
    lemma_be32_injective(v3, u3);
    assert(v == ((v0 as u128) << 96u128) | ((v1 as u128) << 64u128) | ((v2 as u128) << 32u128) | (v3 as u128)) by (bit_vector)
        requires
            v0 == (v >> 96u128) as u32,
            v1 == ((v >> 64u128) & 0xffff_ffffu128) as u32,
            v2 == ((v >> 32u128) & 0xffff_ffffu128) as u32,
            v3 == (v & 0xffff_ffffu128) as u32,
    ;
    assert(w == ((u0 as u128) << 96u128) | ((u1 as u128) << 64u128) | ((u2 as u128) << 32u128) | (u3 as u128)) by (bit_vector)
        requires
            u0 == (w >> 96u128) as u32,
            u1 == ((w >> 64u128) & 0xffff_ffffu128) as u32,
            u2 == ((w >> 32u128) & 0xffff_ffffu128) as u32,
            u3 == (w & 0xffff_ffffu128) as u32,
    ;
}

// ---------------------------------------------------------------------------
// Writers
// ---------------------------------------------------------------------------

pub fn put_u8(out: &mut Vec<u8>, v: u8)
    ensures
        final(out)@ == old(out)@ + seq![v],
{
    out.push(v);
    proof {
        assert(out@ =~= old(out)@ + seq![v]);
    }
}

pub fn put_u32(out: &mut Vec<u8>, v: u32)
    ensures
        final(out)@ == old(out)@ + be32(v),
{
    out.push((v >> 24u32) as u8);
    out.push(((v >> 16u32) & 0xffu32) as u8);
    out.push(((v >> 8u32) & 0xffu32) as u8);
    out.push((v & 0xffu32) as u8);
    proof {
        assert(out@ =~= old(out)@ + be32(v));
    }
}

pub fn put_u128(out: &mut Vec<u8>, v: u128)
    ensures
        final(out)@ == old(out)@ + be128(v),
{
    put_u32(out, (v >> 96u128) as u32);
    put_u32(out, ((v >> 64u128) & 0xffff_ffffu128) as u32);
    put_u32(out, ((v >> 32u128) & 0xffff_ffffu128) as u32);
    put_u32(out, (v & 0xffff_ffffu128) as u32);
    proof {
        assert(out@ =~= old(out)@ + be128(v));
    }
}

/// Appends `bytes` with its length in front; refuses a length beyond `u32`.
pub fn put_bytes(out: &mut Vec<u8>, bytes: &[u8]) -> (r: Result<(), ArtifactError>)
    ensures
        fits(bytes@) ==> r is Ok && final(out)@ == old(out)@ + enc_bytes(bytes@),
        !fits(bytes@) ==> r == Err::<(), ArtifactError>(ArtifactError::CountOverflow) && final(out)@ == old(out)@,
{
    if bytes.len() > 4294967295usize {
        return Err(ArtifactError::CountOverflow);
    }
    put_u32(out, bytes.len() as u32);
    let ghost mid = out@;
    let mut i: usize = 0;
    while i < bytes.len()
        invariant
            i <= bytes@.len(),
            out@ == mid + bytes@.take(i as int),
        decreases bytes@.len() - i,
    {
        out.push(bytes[i]);
        proof {
            assert(bytes@.take(i + 1) =~= bytes@.take(i as int).push(bytes@[i as int]));
        }
        i = i + 1;
    }
    proof {
        assert(bytes@.take(bytes@.len() as int) =~= bytes@);
        assert(out@ =~= old(out)@ + enc_bytes(bytes@));
    }
    Ok(())
}

/// Appends a string as length-prefixed UTF-8.
pub(crate) fn put_string(out: &mut Vec<u8>, s: &String) -> (r: Result<(), ArtifactError>)
    ensures
        fits(encode_utf8(s@)) ==> r is Ok && final(out)@ == old(out)@ + enc_string(s@),
        !fits(encode_utf8(s@)) ==> r == Err::<(), ArtifactError>(ArtifactError::CountOverflow) && final(out)@ == old(out)@,
{
    let b = s.as_str().as_bytes();
    put_bytes(out, b)
}

// ---------------------------------------------------------------------------
// Readers: each reads at `pos` and returns the value and the next position
// ---------------------------------------------------------------------------

pub fn read_u8(bytes: &[u8], pos: usize) -> (r: Result<(u8, usize), ArtifactError>)
    ensures
        pos < bytes@.len() ==> (r matches Ok((b, p)) && b == bytes@[pos as int] && p == pos + 1),
        pos >= bytes@.len() ==> r == Err::<(u8, usize), ArtifactError>(ArtifactError::Truncated),
{
    if pos < bytes.len() {
        Ok((bytes[pos], pos + 1))
    } else {
        Err(ArtifactError::Truncated)
    }
}

pub fn read_u32(bytes: &[u8], pos: usize) -> (r: Result<(u32, usize), ArtifactError>)
    ensures
        pos + 4 <= bytes@.len() ==> (r matches Ok((v, p)) && p == pos + 4 && be32(v) == bytes@.subrange(
            pos as int,
            pos + 4,
        )),
        pos + 4 > bytes@.len() ==> r == Err::<(u32, usize), ArtifactError>(ArtifactError::Truncated),
{
    if pos > bytes.len() || bytes.len() - pos < 4 {
        return Err(ArtifactError::Truncated);
    }
    let b0 = bytes[pos];
    let b1 = bytes[pos + 1];
    let b2 = bytes[pos + 2];
    let b3 = bytes[pos + 3];
    let v = ((b0 as u32) << 24u32) | ((b1 as u32) << 16u32) | ((b2 as u32) << 8u32) | (b3 as u32);
    proof {
        lemma_be32_parts(b0, b1, b2, b3);
        assert(bytes@.subrange(pos as int, pos + 4) =~= seq![b0, b1, b2, b3]);
    }
    Ok((v, pos + 4))
}

pub fn read_u128(bytes: &[u8], pos: usize) -> (r: Result<(u128, usize), ArtifactError>)
    ensures
        pos + 16 <= bytes@.len() ==> (r matches Ok((v, p)) && p == pos + 16 && be128(v) == bytes@.subrange(
            pos as int,
            pos + 16,
        )),
        pos + 16 > bytes@.len() ==> r == Err::<(u128, usize), ArtifactError>(ArtifactError::Truncated),
{
    if pos > bytes.len() || bytes.len() - pos < 16 {
        return Err(ArtifactError::Truncated);
    }
    let (w0, p1) = match read_u32(bytes, pos) {
        Ok(x) => x,
        Err(e) => {
            return Err(e);
        },
    };
    let (w1, p2) = match read_u32(bytes, p1) {
        Ok(x) => x,
        Err(e) => {
            return Err(e);
        },
    };
    let (w2, p3) = match read_u32(bytes, p2) {
        Ok(x) => x,
        Err(e) => {
            return Err(e);
        },
    };
    let (w3, p4) = match read_u32(bytes, p3) {
        Ok(x) => x,
        Err(e) => {
            return Err(e);
        },
    };
    let v = ((w0 as u128) << 96u128) | ((w1 as u128) << 64u128) | ((w2 as u128) << 32u128) | (w3 as u128);
    proof {
        lemma_be128_parts(w0, w1, w2, w3);
        assert(bytes@.subrange(pos as int, pos + 16) =~= bytes@.subrange(pos as int, pos + 4) + bytes@.subrange(
            pos + 4,
            pos + 8,
        ) + bytes@.subrange(pos + 8, pos + 12) + bytes@.subrange(pos + 12, pos + 16));
    }
    Ok((v, p4))
}

/// Whether `piece` occurs in `bytes` at `pos`.
pub open spec fn is_at(bytes: Seq<u8>, pos: int, piece: Seq<u8>) -> bool {
    &&& 0 <= pos
    &&& pos + piece.len() <= bytes.len()
    &&& bytes.subrange(pos, pos + piece.len()) == piece
}

/// Reads a length-prefixed byte string.
pub fn read_bytes(bytes: &[u8], pos: usize) -> (r: Result<(Vec<u8>, usize), ArtifactError>)
    ensures
        r matches Ok((v, p)) ==> pos <= p <= bytes@.len() && p == pos + enc_bytes(v@).len() && is_at(
            bytes@,
            pos as int,
            enc_bytes(v@),
        ) && fits(v@),
        r matches Err(e) ==> e == ArtifactError::Truncated,
        forall|v: Seq<u8>|
            fits(v) && #[trigger] is_at(bytes@, pos as int, enc_bytes(v)) ==> (r matches Ok((w, p)) && w@ == v && p
                == pos + enc_bytes(v).len()),
{
    let (n, p) = match read_u32(bytes, pos) {
        Ok(x) => x,
        Err(e) => {
            proof {
                assert forall|v: Seq<u8>| fits(v) && #[trigger] is_at(bytes@, pos as int, enc_bytes(v)) implies false by {}
            }
            return Err(e);
        },
    };
    let k = n as usize;
    proof {
        assert forall|v: Seq<u8>| fits(v) && #[trigger] is_at(bytes@, pos as int, enc_bytes(v)) implies v.len() == n && p + k
            <= bytes@.len() by {
            assert(bytes@.subrange(pos as int, pos + 4) =~= enc_bytes(v).subrange(0, 4));
            assert(enc_bytes(v).subrange(0, 4) =~= be32(v.len() as u32));
            lemma_be32_injective(n, v.len() as u32);
        }
    }
    if p > bytes.len() || bytes.len() - p < k {
        return Err(ArtifactError::Truncated);
    }
    let total = bytes.len();
    let mut out: Vec<u8> = Vec::new();
    let mut i: usize = 0;
    while i < k
        invariant
            total == bytes@.len(),
            p + k <= bytes@.len(),
            i <= k,
            out@ == bytes@.subrange(p as int, p + i),
        decreases k - i,
    {
        out.push(bytes[p + i]);
        proof {
            assert(out@ =~= bytes@.subrange(p as int, p + i + 1));
        }
        i = i + 1;
    }
    proof {
        assert(out@.len() == n);
        assert(bytes@.subrange(pos as int, (p + k) as int) =~= be32(n) + out@);
        assert forall|v: Seq<u8>| fits(v) && #[trigger] is_at(bytes@, pos as int, enc_bytes(v)) implies out@ == v by {
            assert(v =~= enc_bytes(v).subrange(4, enc_bytes(v).len() as int));
            assert(out@ =~= bytes@.subrange(pos + 4, pos + enc_bytes(v).len()));
        }
    }
    Ok((out, p + k))
}

/// `String::from_utf8`: the string of `bytes` when they are valid UTF-8.
#[verifier::external_body]
fn string_from_utf8(bytes: Vec<u8>) -> (r: Option<String>)
    ensures
        r is Some == valid_utf8(bytes@),
        r matches Some(s) ==> encode_utf8(s@) == bytes@,
{
    match String::from_utf8(bytes) {
        Ok(s) => Some(s),
        Err(_) => None,
    }
}

/// Reads a length-prefixed UTF-8 string.
pub(crate) fn read_string(bytes: &[u8], pos: usize) -> (r: Result<(String, usize), ArtifactError>)
    ensures
        r matches Ok((s, p)) ==> pos <= p <= bytes@.len() && p == pos + enc_string(s@).len() && is_at(
            bytes@,
            pos as int,
            enc_string(s@),
        ) && fits(encode_utf8(s@)),
        r matches Err(e) ==> e == ArtifactError::Truncated || e == ArtifactError::InvalidUtf8,
        forall|s: Seq<char>|
            fits(encode_utf8(s)) && #[trigger] is_at(bytes@, pos as int, enc_string(s)) ==> (r matches Ok((t, p)) && t@
                == s && p == pos + enc_string(s).len()),
{
    let (b, p) = match read_bytes(bytes, pos) {
        Ok(x) => x,
        Err(e) => {
            proof {
                assert forall|s: Seq<char>| fits(encode_utf8(s)) && #[trigger] is_at(bytes@, pos as int, enc_string(s)) implies false by {
                    assert(is_at(bytes@, pos as int, enc_bytes(encode_utf8(s))));
                }
            }
            return Err(e);
        },
    };
    let ghost bv = b@;
    proof {
        assert forall|s: Seq<char>| fits(encode_utf8(s)) && #[trigger] is_at(bytes@, pos as int, enc_string(s)) implies bv
            == encode_utf8(s) && valid_utf8(bv) by {
            assert(is_at(bytes@, pos as int, enc_bytes(encode_utf8(s))));
            vstd::utf8::encode_utf8_valid_utf8(s);
        }
    }
    match string_from_utf8(b) {
        Some(t) => {
            proof {
                assert forall|s: Seq<char>| fits(encode_utf8(s)) && #[trigger] is_at(bytes@, pos as int, enc_string(s)) implies t@
                    == s by {
                    assert(is_at(bytes@, pos as int, enc_bytes(encode_utf8(s))));
                    vstd::utf8::encode_utf8_decode_utf8(s);
                    vstd::utf8::encode_utf8_decode_utf8(t@);
                }
            }
            Ok((t, p))
        },
        None => Err(ArtifactError::InvalidUtf8),
    }
}

// ---------------------------------------------------------------------------
// Sequences of byte strings and strings
// ---------------------------------------------------------------------------

/// Byte strings one after the other, each length-prefixed.
pub open spec fn enc_bytes_seq(vs: Seq<Seq<u8>>) -> Seq<u8>
    decreases vs.len(),
{
    if vs.len() == 0 {
        Seq::empty()
    } else {
        enc_bytes_seq(vs.drop_last()) + enc_bytes(vs.last())
    }
}

/// Strings one after the other, each length-prefixed.
pub open spec fn enc_string_seq(ss: Seq<Seq<char>>) -> Seq<u8>
    decreases ss.len(),
{
    if ss.len() == 0 {
        Seq::empty()
    } else {
        enc_string_seq(ss.drop_last()) + enc_string(ss.last())
    }
}

pub open spec fn string_views(ss: Seq<String>) -> Seq<Seq<char>> {
    ss.map_values(|s: String| s@)
}

pub open spec fn all_fit(vs: Seq<Seq<u8>>) -> bool {
    forall|i: int| 0 <= i < vs.len() ==> fits(#[trigger] vs[i])
}

pub open spec fn all_strings_fit(ss: Seq<Seq<char>>) -> bool {
    forall|i: int| 0 <= i < ss.len() ==> fits(encode_utf8(#[trigger] ss[i]))
}

/// Pieces laid one after the other can be found at their offsets.
pub proof fn lemma_is_at_split(bytes: Seq<u8>, pos: int, a: Seq<u8>, b: Seq<u8>)
    requires
        is_at(bytes, pos, a + b),
    ensures
        is_at(bytes, pos, a),
        is_at(bytes, pos + a.len(), b),
{
    let whole = bytes.subrange(pos, pos + a.len() + b.len());
    assert(whole == a + b);
    assert(bytes.subrange(pos, pos + a.len()) =~= whole.subrange(0, a.len() as int));
    assert(whole.subrange(0, a.len() as int) =~= a);
    assert(bytes.subrange(pos + a.len(), pos + a.len() + b.len()) =~= whole.subrange(a.len() as int, whole.len() as int));
    assert(whole.subrange(a.len() as int, whole.len() as int) =~= b);
}

/// Pieces found at consecutive offsets lie there together.
pub proof fn lemma_is_at_join(bytes: Seq<u8>, pos: int, a: Seq<u8>, b: Seq<u8>)
    requires
        is_at(bytes, pos, a),
        is_at(bytes, pos + a.len(), b),
    ensures
        is_at(bytes, pos, a + b),
{
    assert(bytes.subrange(pos, pos + a.len() + b.len()) =~= bytes.subrange(pos, pos + a.len()) + bytes.subrange(
        pos + a.len(),
        pos + a.len() + b.len(),
    ));
}

proof fn lemma_enc_bytes_seq_take(vs: Seq<Seq<u8>>, i: int)
    requires
        0 <= i < vs.len(),
    ensures
        enc_bytes_seq(vs.take(i + 1)) == enc_bytes_seq(vs.take(i)) + enc_bytes(vs[i]),
{
    assert(vs.take(i + 1).drop_last() =~= vs.take(i));
}

proof fn lemma_enc_string_seq_take(ss: Seq<Seq<char>>, i: int)
    requires
        0 <= i < ss.len(),
    ensures
        enc_string_seq(ss.take(i + 1)) == enc_string_seq(ss.take(i)) + enc_string(ss[i]),
{
    assert(ss.take(i + 1).drop_last() =~= ss.take(i));
}

/// Appends byte strings one after the other.
pub fn put_bytes_seq(out: &mut Vec<u8>, vs: &[Vec<u8>]) -> (r: Result<(), ArtifactError>)
    ensures
        all_fit(crate::lexicon::byte_views(vs@)) ==> r is Ok && final(out)@ == old(out)@ + enc_bytes_seq(
            crate::lexicon::byte_views(vs@),
        ),
        !all_fit(crate::lexicon::byte_views(vs@)) ==> r == Err::<(), ArtifactError>(ArtifactError::CountOverflow),
{
    let ghost bv = crate::lexicon::byte_views(vs@);
    let mut i: usize = 0;
    proof {
        assert(bv.take(0) =~= Seq::<Seq<u8>>::empty());
    }
    while i < vs.len()
        invariant
            bv == crate::lexicon::byte_views(vs@),
            i <= vs@.len(),
            all_fit(bv.take(i as int)),
            out@ == old(out)@ + enc_bytes_seq(bv.take(i as int)),
        decreases vs@.len() - i,
    {
        proof {
            lemma_enc_bytes_seq_take(bv, i as int);
        }
        match put_bytes(out, vs[i].as_slice()) {
            Ok(()) => {},
            Err(e) => {
                proof {
                    assert(!fits(bv[i as int]));
                }
                return Err(e);
            },
        }
        proof {
            assert(out@ =~= old(out)@ + enc_bytes_seq(bv.take(i + 1)));
            assert forall|t: int| 0 <= t < i + 1 implies fits(#[trigger] bv.take(i + 1)[t]) by {
                if t < i {
                    assert(bv.take(i + 1)[t] == bv.take(i as int)[t]);
                }
            }
        }
        i = i + 1;
    }
    proof {
        assert(bv.take(vs@.len() as int) =~= bv);
    }
    Ok(())
}

/// Appends strings one after the other.
pub(crate) fn put_string_seq(out: &mut Vec<u8>, ss: &[String]) -> (r: Result<(), ArtifactError>)
    ensures
        all_strings_fit(string_views(ss@)) ==> r is Ok && final(out)@ == old(out)@ + enc_string_seq(string_views(ss@)),
        !all_strings_fit(string_views(ss@)) ==> r == Err::<(), ArtifactError>(ArtifactError::CountOverflow),
{
    let ghost sv = string_views(ss@);
    let mut i: usize = 0;
    proof {
        assert(sv.take(0) =~= Seq::<Seq<char>>::empty());
    }
    while i < ss.len()
        invariant
            sv == string_views(ss@),
            i <= ss@.len(),
            all_strings_fit(sv.take(i as int)),
            out@ == old(out)@ + enc_string_seq(sv.take(i as int)),
        decreases ss@.len() - i,
    {
        proof {
            lemma_enc_string_seq_take(sv, i as int);
        }
        match put_string(out, &ss[i]) {
            Ok(()) => {},
            Err(e) => {
                proof {
                    assert(!fits(encode_utf8(sv[i as int])));
                }
                return Err(e);
            },
        }
        proof {
            assert(out@ =~= old(out)@ + enc_string_seq(sv.take(i + 1)));
            assert forall|t: int| 0 <= t < i + 1 implies fits(encode_utf8(#[trigger] sv.take(i + 1)[t])) by {
                if t < i {
                    assert(sv.take(i + 1)[t] == sv.take(i as int)[t]);
                }
            }
        }
        i = i + 1;
    }
    proof {
        assert(sv.take(ss@.len() as int) =~= sv);
    }
    Ok(())
}

/// Reads `n` length-prefixed byte strings.
pub(crate) fn read_bytes_seq(bytes: &[u8], pos: usize, n: usize) -> (r: Result<(Vec<Vec<u8>>, usize), ArtifactError>)
    ensures
        r matches Ok((vs, p)) ==> vs@.len() == n && pos <= p <= bytes@.len() && p == pos + enc_bytes_seq(
            crate::lexicon::byte_views(vs@),
        ).len() && is_at(bytes@, pos as int, enc_bytes_seq(crate::lexicon::byte_views(vs@))) && all_fit(
            crate::lexicon::byte_views(vs@),
        ),
        r matches Err(e) ==> e == ArtifactError::Truncated,
        forall|vs: Seq<Seq<u8>>|
            vs.len() == n && all_fit(vs) && #[trigger] is_at(bytes@, pos as int, enc_bytes_seq(vs)) ==> (r matches Ok(
                (ws, p),
            ) && crate::lexicon::byte_views(ws@) == vs && p == pos + enc_bytes_seq(vs).len()),
{
    if pos > bytes.len() {
        return Err(ArtifactError::Truncated);
    }
    let mut out: Vec<Vec<u8>> = Vec::new();
    let mut cur = pos;
    let mut i: usize = 0;
    proof {
        assert(crate::lexicon::byte_views(out@) =~= Seq::<Seq<u8>>::empty());
        assert(bytes@.subrange(pos as int, pos as int) =~= Seq::<u8>::empty());
        assert forall|vs: Seq<Seq<u8>>| vs.len() == n && all_fit(vs) && #[trigger] is_at(bytes@, pos as int, enc_bytes_seq(vs)) implies crate::lexicon::byte_views(out@)
            == vs.take(0) by {
            assert(vs.take(0) =~= Seq::<Seq<u8>>::empty());
        }
    }
    while i < n
        invariant
            i <= n,
            out@.len() == i,
            pos <= cur <= bytes@.len(),
            cur == pos + enc_bytes_seq(crate::lexicon::byte_views(out@)).len(),
            is_at(bytes@, pos as int, enc_bytes_seq(crate::lexicon::byte_views(out@))),
            all_fit(crate::lexicon::byte_views(out@)),
            forall|vs: Seq<Seq<u8>>|
                vs.len() == n && all_fit(vs) && #[trigger] is_at(bytes@, pos as int, enc_bytes_seq(vs))
                    ==> crate::lexicon::byte_views(out@) == vs.take(i as int),
        decreases n - i,
    {
        let ghost before = crate::lexicon::byte_views(out@);
        proof {
            assert forall|vs: Seq<Seq<u8>>| vs.len() == n && all_fit(vs) && #[trigger] is_at(bytes@, pos as int, enc_bytes_seq(vs)) implies is_at(
                bytes@,
                cur as int,
                enc_bytes(vs[i as int]),
            ) && fits(vs[i as int]) by {
                lemma_enc_bytes_seq_take(vs, i as int);
                let rest = vs.subrange(i + 1, vs.len() as int);
                lemma_enc_seq_prefix(vs, i + 1);
                lemma_is_at_split(bytes@, pos as int, enc_bytes_seq(vs.take(i + 1)), enc_bytes_seq_rest(vs, i + 1));
                lemma_is_at_split(bytes@, pos as int, enc_bytes_seq(vs.take(i as int)), enc_bytes(vs[i as int]));
            }
        }
        match read_bytes(bytes, cur) {
            Ok((v, p)) => {
                let ghost vv = v@;
                out.push(v);
                proof {
                    assert(crate::lexicon::byte_views(out@) =~= before.push(vv));
                    assert(crate::lexicon::byte_views(out@).drop_last() =~= before);
                    lemma_is_at_join(bytes@, pos as int, enc_bytes_seq(before), enc_bytes(vv));
                    assert forall|t: int| 0 <= t < out@.len() implies fits(#[trigger] crate::lexicon::byte_views(out@)[t]) by {
                        if t < i {
                            assert(crate::lexicon::byte_views(out@)[t] == before[t]);
                        }
                    }
                    assert forall|vs: Seq<Seq<u8>>| vs.len() == n && all_fit(vs) && #[trigger] is_at(bytes@, pos as int, enc_bytes_seq(vs)) implies crate::lexicon::byte_views(out@)
                        == vs.take(i + 1) by {
                        assert(vs.take(i + 1) =~= vs.take(i as int).push(vs[i as int]));
                    }
                }
                cur = p;
            },
            Err(e) => {
                return Err(e);
            },
        }
        i = i + 1;
    }
    proof {
        assert forall|vs: Seq<Seq<u8>>| vs.len() == n && all_fit(vs) && #[trigger] is_at(bytes@, pos as int, enc_bytes_seq(vs)) implies crate::lexicon::byte_views(out@)
            == vs by {
            assert(vs.take(n as int) =~= vs);
        }
    }
    Ok((out, cur))
}

/// The byte strings of `vs` from position `i` on, one after the other.
pub open spec fn enc_bytes_seq_rest(vs: Seq<Seq<u8>>, i: int) -> Seq<u8>
    decreases vs.len() - i,
{
    if i >= vs.len() {
        Seq::empty()
    } else {
        enc_bytes(vs[i]) + enc_bytes_seq_rest(vs, i + 1)
    }
}

proof fn lemma_enc_seq_prefix(vs: Seq<Seq<u8>>, i: int)
    requires
        0 <= i <= vs.len(),
    ensures
        enc_bytes_seq(vs) == enc_bytes_seq(vs.take(i)) + enc_bytes_seq_rest(vs, i),
    decreases vs.len() - i,
{
    if i < vs.len() {
        lemma_enc_seq_prefix(vs, i + 1);
        lemma_enc_bytes_seq_take(vs, i);
        assert(enc_bytes_seq(vs.take(i)) + enc_bytes_seq_rest(vs, i) =~= enc_bytes_seq(vs.take(i + 1)) + enc_bytes_seq_rest(
            vs,
            i + 1,
        ));
    } else {
        assert(vs.take(i) =~= vs);
        assert(enc_bytes_seq(vs) + Seq::<u8>::empty() =~= enc_bytes_seq(vs));
    }
}


/// The strings of `ss` from position `i` on, one after the other.
pub open spec fn enc_string_seq_rest(ss: Seq<Seq<char>>, i: int) -> Seq<u8>
    decreases ss.len() - i,
{
    if i >= ss.len() {
        Seq::empty()
    } else {
        enc_string(ss[i]) + enc_string_seq_rest(ss, i + 1)
    }
}

proof fn lemma_enc_string_seq_prefix(ss: Seq<Seq<char>>, i: int)
    requires
        0 <= i <= ss.len(),
    ensures
        enc_string_seq(ss) == enc_string_seq(ss.take(i)) + enc_string_seq_rest(ss, i),
    decreases ss.len() - i,
{
    if i < ss.len() {
        lemma_enc_string_seq_prefix(ss, i + 1);
        lemma_enc_string_seq_take(ss, i);
        assert(enc_string_seq(ss.take(i)) + enc_string_seq_rest(ss, i) =~= enc_string_seq(ss.take(i + 1))
            + enc_string_seq_rest(ss, i + 1));
    } else {
        assert(ss.take(i) =~= ss);
        assert(enc_string_seq(ss) + Seq::<u8>::empty() =~= enc_string_seq(ss));
    }
}

/// Reads `n` length-prefixed strings.
pub(crate) fn read_string_seq(bytes: &[u8], pos: usize, n: usize) -> (r: Result<(Vec<String>, usize), ArtifactError>)
    ensures
        r matches Ok((ss, p)) ==> ss@.len() == n && pos <= p <= bytes@.len() && p == pos + enc_string_seq(
            string_views(ss@),
        ).len() && is_at(bytes@, pos as int, enc_string_seq(string_views(ss@))) && all_strings_fit(string_views(ss@)),
        r matches Err(e) ==> e == ArtifactError::Truncated || e == ArtifactError::InvalidUtf8,
        forall|ss: Seq<Seq<char>>|
            ss.len() == n && all_strings_fit(ss) && #[trigger] is_at(bytes@, pos as int, enc_string_seq(ss)) ==> (r matches Ok(
                (ts, p),
            ) && string_views(ts@) == ss && p == pos + enc_string_seq(ss).len()),
{
    if pos > bytes.len() {
        return Err(ArtifactError::Truncated);
    }
    let mut out: Vec<String> = Vec::new();
    let mut cur = pos;
    let mut i: usize = 0;
    proof {
        assert(string_views(out@) =~= Seq::<Seq<char>>::empty());
        assert(bytes@.subrange(pos as int, pos as int) =~= Seq::<u8>::empty());
        assert forall|ss: Seq<Seq<char>>| ss.len() == n && all_strings_fit(ss) && #[trigger] is_at(bytes@, pos as int, enc_string_seq(ss)) implies string_views(
            out@,
        ) == ss.take(0) by {
            assert(ss.take(0) =~= Seq::<Seq<char>>::empty());
        }
    }
    while i < n
        invariant
            i <= n,
            out@.len() == i,
            pos <= cur <= bytes@.len(),
            cur == pos + enc_string_seq(string_views(out@)).len(),
            is_at(bytes@, pos as int, enc_string_seq(string_views(out@))),
            all_strings_fit(string_views(out@)),
            forall|ss: Seq<Seq<char>>|
                ss.len() == n && all_strings_fit(ss) && #[trigger] is_at(bytes@, pos as int, enc_string_seq(ss)) ==> string_views(
                    out@,
                ) == ss.take(i as int),
        decreases n - i,
    {
        let ghost before = string_views(out@);
        proof {
            assert forall|ss: Seq<Seq<char>>| ss.len() == n && all_strings_fit(ss) && #[trigger] is_at(bytes@, pos as int, enc_string_seq(ss)) implies is_at(
                bytes@,
                cur as int,
                enc_string(ss[i as int]),
            ) && fits(encode_utf8(ss[i as int])) by {
                lemma_enc_string_seq_take(ss, i as int);
                lemma_enc_string_seq_prefix(ss, i + 1);
                lemma_is_at_split(bytes@, pos as int, enc_string_seq(ss.take(i + 1)), enc_string_seq_rest(ss, i + 1));
                lemma_is_at_split(bytes@, pos as int, enc_string_seq(ss.take(i as int)), enc_string(ss[i as int]));
            }
        }
        match read_string(bytes, cur) {
            Ok((t, p)) => {
                let ghost tv = t@;
                out.push(t);
                proof {
                    assert(string_views(out@) =~= before.push(tv));
                    assert(string_views(out@).drop_last() =~= before);
                    lemma_is_at_join(bytes@, pos as int, enc_string_seq(before), enc_string(tv));
                    assert forall|t: int| 0 <= t < out@.len() implies fits(encode_utf8(#[trigger] string_views(out@)[t])) by {
                        if t < i {
                            assert(string_views(out@)[t] == before[t]);
                        }
                    }
                    assert forall|ss: Seq<Seq<char>>| ss.len() == n && all_strings_fit(ss) && #[trigger] is_at(bytes@, pos as int, enc_string_seq(ss)) implies string_views(
                        out@,
                    ) == ss.take(i + 1) by {
                        assert(ss.take(i + 1) =~= ss.take(i as int).push(ss[i as int]));
                    }
                }
                cur = p;
            },
            Err(e) => {
                return Err(e);
            },
        }
        i = i + 1;
    }
    proof {
        assert forall|ss: Seq<Seq<char>>| ss.len() == n && all_strings_fit(ss) && #[trigger] is_at(bytes@, pos as int, enc_string_seq(ss)) implies string_views(
            out@,
        ) == ss by {
            assert(ss.take(n as int) =~= ss);
        }
    }
    Ok((out, cur))
}


// ---------------------------------------------------------------------------
// Lexicon artifacts
// ---------------------------------------------------------------------------

#[derive(Clone, Debug, PartialEq, Eq)]
pub struct LexiconArtifact {
    pub lexicon: Lexicon,
    pub renderer: String,
    pub profile: String,
    /// Deterministic validation claims frozen with this exact atom ordering.
    pub validation: Vec<String>,
    /// Tokenizer families the profile was derived for; provenance only.
    pub tokenizer_families: Vec<String>,
    pub provenance: Vec<ProvenanceRecord>,
}

/// Mathematical content of a lexicon artifact.
pub struct LexiconArtifactView {
    pub atoms: Seq<Seq<u8>>,
    pub renderer: Seq<char>,
    pub profile: Seq<char>,
    pub validation: Seq<Seq<char>>,
    pub families: Seq<Seq<char>>,
    pub provenance: Seq<ProvenanceView>,
}

impl View for LexiconArtifact {
    type V = LexiconArtifactView;

    open spec fn view(&self) -> LexiconArtifactView {
        LexiconArtifactView {
            atoms: self.lexicon@,
            renderer: self.renderer@,
            profile: self.profile@,
            validation: string_views(self.validation@),
            families: string_views(self.tokenizer_families@),
            provenance: self.provenance@.map_values(|p: ProvenanceRecord| p@),
        }
    }
}

/// "TECALX02".
pub open spec fn lexicon_magic() -> Seq<u8> {
    seq![84u8, 69u8, 67u8, 65u8, 76u8, 88u8, 48u8, 50u8]
}

/// The strings of provenance records, three per record.
pub open spec fn prov_strings(ps: Seq<ProvenanceView>) -> Seq<Seq<char>>
    decreases ps.len(),
{
    if ps.len() == 0 {
        Seq::empty()
    } else {
        prov_strings(ps.drop_last()) + seq![ps.last().name, ps.last().source, ps.last().license]
    }
}

/// Nonempty renderer and profile, at least one validation claim and none
/// empty, tokenizer families nonempty and distinct.
pub open spec fn lexicon_metadata_ok(a: LexiconArtifactView) -> bool {
    &&& a.renderer.len() > 0
    &&& a.profile.len() > 0
    &&& a.validation.len() > 0
    &&& forall|i: int| 0 <= i < a.validation.len() ==> (#[trigger] a.validation[i]).len() > 0
    &&& forall|i: int| 0 <= i < a.families.len() ==> (#[trigger] a.families[i]).len() > 0
    &&& forall|i: int, j: int| 0 <= i < j < a.families.len() ==> a.families[i] != a.families[j]
}

/// Every count and length fits its 32-bit prefix.
pub open spec fn lexicon_encodable(a: LexiconArtifactView) -> bool {
    &&& a.atoms.len() <= u32::MAX
    &&& all_fit(a.atoms)
    &&& fits(encode_utf8(a.renderer))
    &&& fits(encode_utf8(a.profile))
    &&& a.validation.len() <= u32::MAX
    &&& all_strings_fit(a.validation)
    &&& a.families.len() <= u32::MAX
    &&& all_strings_fit(a.families)
    &&& a.provenance.len() <= u32::MAX
    &&& all_strings_fit(prov_strings(a.provenance))
}

/// Provenance records: their count, then their strings.
pub open spec fn enc_provenance(ps: Seq<ProvenanceView>) -> Seq<u8> {
    be32(ps.len() as u32) + enc_string_seq(prov_strings(ps))
}

pub open spec fn lex_tail_families(a: LexiconArtifactView) -> Seq<u8> {
    be32(a.families.len() as u32) + (enc_string_seq(a.families) + enc_provenance(a.provenance))
}

pub open spec fn lex_tail_validation(a: LexiconArtifactView) -> Seq<u8> {
    be32(a.validation.len() as u32) + (enc_string_seq(a.validation) + lex_tail_families(a))
}

pub open spec fn lex_tail_strings(a: LexiconArtifactView) -> Seq<u8> {
    enc_string(a.renderer) + (enc_string(a.profile) + lex_tail_validation(a))
}

/// The encoding of a lexicon artifact.
pub open spec fn lexicon_artifact_bytes(a: LexiconArtifactView) -> Seq<u8> {
    lexicon_magic() + (be32(a.atoms.len() as u32) + (enc_bytes_seq(a.atoms) + lex_tail_strings(a)))
}

proof fn lemma_prov_strings_push(ps: Seq<ProvenanceView>, i: int)
    requires
        0 <= i < ps.len(),
    ensures
        prov_strings(ps.take(i + 1)) == prov_strings(ps.take(i)) + seq![ps[i].name, ps[i].source, ps[i].license],
        prov_strings(ps.take(i)).len() == 3 * i,
    decreases i,
{
    assert(ps.take(i + 1).drop_last() =~= ps.take(i));
    if i > 0 {
        lemma_prov_strings_push(ps, i - 1);
    } else {
        assert(ps.take(0) =~= Seq::<ProvenanceView>::empty());
    }
}

proof fn lemma_enc_string_seq_append3(x: Seq<Seq<char>>, a: Seq<char>, b: Seq<char>, c: Seq<char>)
    ensures
        enc_string_seq(x + seq![a, b, c]) == enc_string_seq(x) + enc_string(a) + enc_string(b) + enc_string(c),
{
    let y = x + seq![a, b, c];
    let y2 = x + seq![a, b];
    let y1 = x + seq![a];
    assert(y.drop_last() =~= y2);
    assert(y.last() == c);
    assert(y2.drop_last() =~= y1);
    assert(y2.last() == b);
    assert(y1.drop_last() =~= x);
    assert(y1.last() == a);
    assert(enc_string_seq(y1) == enc_string_seq(x) + enc_string(a));
    assert(enc_string_seq(y2) == enc_string_seq(y1) + enc_string(b));
    assert(enc_string_seq(y) == enc_string_seq(y2) + enc_string(c));
    assert(enc_string_seq(y) =~= enc_string_seq(x) + enc_string(a) + enc_string(b) + enc_string(c));
}

/// The names of the records, in order, three per record.
pub(crate) fn put_provenance(out: &mut Vec<u8>, ps: &[ProvenanceRecord]) -> (r: Result<(), ArtifactError>)
    ensures
        ({
            let pv = ps@.map_values(|p: ProvenanceRecord| p@);
            &&& pv.len() <= u32::MAX && all_strings_fit(prov_strings(pv)) ==> r is Ok && final(out)@ == old(out)@
                + enc_provenance(pv)
            &&& !(pv.len() <= u32::MAX && all_strings_fit(prov_strings(pv))) ==> r == Err::<(), ArtifactError>(
                ArtifactError::CountOverflow,
            )
        }),
{
    let ghost pv = ps@.map_values(|p: ProvenanceRecord| p@);
    if ps.len() > 4294967295usize {
        return Err(ArtifactError::CountOverflow);
    }
    put_u32(out, ps.len() as u32);
    let ghost mid = out@;
    let mut i: usize = 0;
    proof {
        assert(pv.take(0) =~= Seq::<ProvenanceView>::empty());
        assert(out@ =~= mid + enc_string_seq(prov_strings(pv.take(0))));
    }
    while i < ps.len()
        invariant
            pv == ps@.map_values(|p: ProvenanceRecord| p@),
            i <= ps@.len(),
            all_strings_fit(prov_strings(pv.take(i as int))),
            out@ == mid + enc_string_seq(prov_strings(pv.take(i as int))),
        decreases ps@.len() - i,
    {
        let rec = &ps[i];
        proof {
            lemma_prov_strings_push(pv, i as int);
            lemma_enc_string_seq_append3(prov_strings(pv.take(i as int)), rec.name@, rec.source@, rec.license@);
            assert(pv[i as int] == rec@);
        }
        let ghost before = prov_strings(pv.take(i as int));
        let ghost after = prov_strings(pv.take(i + 1));
        match put_string(out, &rec.name) {
            Ok(()) => {},
            Err(e) => {
                proof {
                    lemma_fit_after(pv, i as int, 0);
                }
                return Err(e);
            },
        }
        match put_string(out, &rec.source) {
            Ok(()) => {},
            Err(e) => {
                proof {
                    lemma_fit_after(pv, i as int, 1);
                }
                return Err(e);
            },
        }
        match put_string(out, &rec.license) {
            Ok(()) => {},
            Err(e) => {
                proof {
                    lemma_fit_after(pv, i as int, 2);
                }
                return Err(e);
            },
        }
        proof {
            assert(out@ =~= mid + enc_string_seq(after));
            assert forall|t: int| 0 <= t < after.len() implies fits(encode_utf8(#[trigger] after[t])) by {
                if t < before.len() {
                    assert(after[t] == before[t]);
                }
            }
        }
        i = i + 1;
    }
    proof {
        assert(pv.take(ps@.len() as int) =~= pv);
        assert(out@ =~= old(out)@ + enc_provenance(pv));
    }
    Ok(())
}

/// A string of record `i` that does not fit keeps the whole list from fitting.
proof fn lemma_fit_after(pv: Seq<ProvenanceView>, i: int, k: int)
    requires
        0 <= i < pv.len(),
        0 <= k < 3,
        !fits(encode_utf8(seq![pv[i].name, pv[i].source, pv[i].license][k])),
    ensures
        !all_strings_fit(prov_strings(pv)),
{
    lemma_prov_strings_prefix(pv, i + 1);
    lemma_prov_strings_push(pv, i);
    let all = prov_strings(pv);
    let t = 3 * i + k;
    assert(all[t] == prov_strings(pv.take(i + 1))[t]);
    assert(prov_strings(pv.take(i + 1))[t] == seq![pv[i].name, pv[i].source, pv[i].license][k]);
}

/// The strings of a prefix of the records are a prefix of all their strings.
proof fn lemma_prov_strings_prefix(pv: Seq<ProvenanceView>, n: int)
    requires
        0 <= n <= pv.len(),
    ensures
        prov_strings(pv.take(n)) == prov_strings(pv).take(prov_strings(pv.take(n)).len() as int),
        prov_strings(pv).len() == 3 * pv.len(),
    decreases pv.len() - n,
{
    if n < pv.len() {
        lemma_prov_strings_prefix(pv, n + 1);
        lemma_prov_strings_push(pv, n);
        assert(prov_strings(pv.take(n)) =~= prov_strings(pv.take(n + 1)).take(3 * n));
        assert(prov_strings(pv).take(3 * n) =~= prov_strings(pv).take(3 * n + 3).take(3 * n));
    } else {
        assert(pv.take(n) =~= pv);
        assert(prov_strings(pv).take(prov_strings(pv).len() as int) =~= prov_strings(pv));
        if pv.len() > 0 {
            lemma_prov_strings_push(pv, pv.len() - 1);
        } else {
            assert(pv.take(0) =~= Seq::<ProvenanceView>::empty());
        }
    }
}


/// Reads a count and that many provenance records.
pub(crate) fn read_provenance(bytes: &[u8], pos: usize) -> (r: Result<(Vec<ProvenanceRecord>, usize), ArtifactError>)
    ensures
        r matches Ok((ps, p)) ==> {
            let pv = ps@.map_values(|x: ProvenanceRecord| x@);
            &&& pos <= p <= bytes@.len()
            &&& p == pos + enc_provenance(pv).len()
            &&& is_at(bytes@, pos as int, enc_provenance(pv))
            &&& pv.len() <= u32::MAX
            &&& all_strings_fit(prov_strings(pv))
        },
        r matches Err(e) ==> e == ArtifactError::Truncated || e == ArtifactError::InvalidUtf8,
        forall|pv: Seq<ProvenanceView>|
            pv.len() <= u32::MAX && all_strings_fit(prov_strings(pv)) && #[trigger] is_at(bytes@, pos as int, enc_provenance(pv))
                ==> (r matches Ok((ps, p)) && ps@.map_values(|x: ProvenanceRecord| x@) == pv && p == pos + enc_provenance(
                pv,
            ).len()),
{
    let total = bytes.len();
    let (n, p) = match read_u32(bytes, pos) {
        Ok(x) => x,
        Err(e) => {
            proof {
                assert forall|pv: Seq<ProvenanceView>| pv.len() <= u32::MAX && all_strings_fit(prov_strings(pv)) && #[trigger] is_at(
                    bytes@,
                    pos as int,
                    enc_provenance(pv),
                ) implies false by {}
            }
            return Err(e);
        },
    };
    proof {
        assert forall|pv: Seq<ProvenanceView>| pv.len() <= u32::MAX && all_strings_fit(prov_strings(pv)) && #[trigger] is_at(
            bytes@,
            pos as int,
            enc_provenance(pv),
        ) implies pv.len() == n && is_at(bytes@, p as int, enc_string_seq(prov_strings(pv))) && prov_strings(pv).len() == 3 * n by {
            lemma_is_at_split(bytes@, pos as int, be32(pv.len() as u32), enc_string_seq(prov_strings(pv)));
            lemma_be32_injective(n, pv.len() as u32);
            lemma_prov_strings_prefix(pv, 0);
        }
    }
    let m = match (n as usize).checked_mul(3) {
        Some(m) => m,
        None => {
            proof {
                assert forall|pv: Seq<ProvenanceView>| pv.len() <= u32::MAX && all_strings_fit(prov_strings(pv)) && #[trigger] is_at(
                    bytes@,
                    pos as int,
                    enc_provenance(pv),
                ) implies false by {
                    lemma_enc_string_seq_len(prov_strings(pv));
                    assert(pv.len() == n);
                    assert(prov_strings(pv).len() == 3 * n);
                    assert(bytes@.len() == total);
                }
            }
            return Err(ArtifactError::Truncated);
        },
    };
    let (ss, q) = match read_string_seq(bytes, p, m) {
        Ok(x) => x,
        Err(e) => {
            return Err(e);
        },
    };
    let ghost sv = string_views(ss@);
    let mut out: Vec<ProvenanceRecord> = Vec::new();
    let mut i: usize = 0;
    let count = n as usize;
    proof {
        assert(sv.len() == 3 * count);
    }
    while i < count
        invariant
            sv == string_views(ss@),
            sv.len() == 3 * count,
            m == 3 * count,
            i <= count,
            out@.len() == i,
            prov_strings(out@.map_values(|x: ProvenanceRecord| x@)) == sv.take(3 * i),
        decreases count - i,
    {
        let ghost before = out@.map_values(|x: ProvenanceRecord| x@);
        let rec = ProvenanceRecord {
            name: ss[3 * i].clone(),
            source: ss[3 * i + 1].clone(),
            license: ss[3 * i + 2].clone(),
        };
        let ghost rv = rec@;
        out.push(rec);
        proof {
            let after = out@.map_values(|x: ProvenanceRecord| x@);
            assert(after =~= before.push(rv));
            assert(after.take(i as int) =~= before);
            assert(before.take(i as int) =~= before);
            lemma_prov_strings_push(after, i as int);
            assert(after.take(i + 1) =~= after);
            assert(rv.name == sv[3 * i]);
            assert(rv.source == sv[3 * i + 1]);
            assert(rv.license == sv[3 * i + 2]);
            assert(prov_strings(after) =~= sv.take(3 * (i + 1)));
        }
        i = i + 1;
    }
    let ghost ov = out@.map_values(|x: ProvenanceRecord| x@);
    proof {
        assert(sv.take(3 * count) =~= sv);
        lemma_is_at_join(bytes@, pos as int, be32(n), enc_string_seq(prov_strings(ov)));
        assert(ov.len() == n);
        assert forall|pv: Seq<ProvenanceView>| pv.len() <= u32::MAX && all_strings_fit(prov_strings(pv)) && #[trigger] is_at(
            bytes@,
            pos as int,
            enc_provenance(pv),
        ) implies ov == pv by {
            assert(prov_strings(pv).len() == 3 * n);
            assert(sv == prov_strings(pv));
            lemma_prov_strings_injective(ov, pv);
        }
    }
    Ok((out, q))
}

/// Records are determined by their strings.
proof fn lemma_prov_strings_injective(a: Seq<ProvenanceView>, b: Seq<ProvenanceView>)
    requires
        a.len() == b.len(),
        prov_strings(a) == prov_strings(b),
    ensures
        a == b,
{
    assert forall|i: int| 0 <= i < a.len() implies a[i] == b[i] by {
        lemma_prov_strings_prefix(a, i + 1);
        lemma_prov_strings_prefix(b, i + 1);
        lemma_prov_strings_push(a, i);
        lemma_prov_strings_push(b, i);
        let pa = prov_strings(a.take(i + 1));
        let pb = prov_strings(b.take(i + 1));
        assert(pa.len() == 3 * i + 3);
        assert(pa == prov_strings(a).take(3 * i + 3));
        assert(pb == prov_strings(b).take(3 * i + 3));
        assert(pa[3 * i] == a[i].name && pb[3 * i] == b[i].name);
        assert(pa[3 * i + 1] == a[i].source && pb[3 * i + 1] == b[i].source);
        assert(pa[3 * i + 2] == a[i].license && pb[3 * i + 2] == b[i].license);
    }
    assert(a =~= b);
}


proof fn lemma_enc_string_seq_len(ss: Seq<Seq<char>>)
    ensures
        enc_string_seq(ss).len() >= 4 * ss.len(),
    decreases ss.len(),
{
    if ss.len() > 0 {
        lemma_enc_string_seq_len(ss.drop_last());
    }
}


/// Checks the metadata of a lexicon artifact.
fn validate_lexicon_metadata(a: &LexiconArtifact) -> (r: Result<(), ArtifactError>)
    ensures
        r is Ok == lexicon_metadata_ok(a@),
        r matches Err(e) ==> e is InvalidLexiconMetadata,
{
    if a.renderer.as_str().is_empty() || a.profile.as_str().is_empty() {
        return Err(ArtifactError::InvalidLexiconMetadata("renderer/profile cannot be empty"));
    }
    if a.validation.len() == 0 {
        return Err(ArtifactError::InvalidLexiconMetadata("at least one nonempty validation claim is required"));
    }
    let mut i: usize = 0;
    while i < a.validation.len()
        invariant
            i <= a.validation@.len(),
            forall|k: int| 0 <= k < i ==> (#[trigger] a.validation@[k])@.len() > 0,
        decreases a.validation@.len() - i,
    {
        if a.validation[i].as_str().is_empty() {
            proof {
                assert(a@.validation[i as int] == a.validation@[i as int]@);
            }
            return Err(ArtifactError::InvalidLexiconMetadata("at least one nonempty validation claim is required"));
        }
        i = i + 1;
    }
    let fam = &a.tokenizer_families;
    let mut j: usize = 0;
    while j < fam.len()
        invariant
            fam@ == a.tokenizer_families@,
            j <= fam@.len(),
            forall|k: int| 0 <= k < j ==> (#[trigger] fam@[k])@.len() > 0,
            forall|x: int, y: int| 0 <= x < y < j ==> (#[trigger] fam@[x])@ != (#[trigger] fam@[y])@,
        decreases fam@.len() - j,
    {
        if fam[j].as_str().is_empty() {
            proof {
                assert(a@.families[j as int] == fam@[j as int]@);
            }
            return Err(ArtifactError::InvalidLexiconMetadata(
                "tokenizer-family provenance contains an empty or duplicate entry",
            ));
        }
        let mut k: usize = 0;
        while k < j
            invariant
                fam@ == a.tokenizer_families@,
                j < fam@.len(),
                k <= j,
                forall|x: int| 0 <= x < k ==> (#[trigger] fam@[x])@ != fam@[j as int]@,
            decreases j - k,
        {
            if fam[k] == fam[j] {
                proof {
                    assert(a@.families[k as int] == fam@[k as int]@);
                    assert(a@.families[j as int] == fam@[j as int]@);
                }
                return Err(ArtifactError::InvalidLexiconMetadata(
                    "tokenizer-family provenance contains an empty or duplicate entry",
                ));
            }
            k = k + 1;
        }
        j = j + 1;
    }
    proof {
        assert forall|x: int| 0 <= x < a@.validation.len() implies (#[trigger] a@.validation[x]).len() > 0 by {
            assert(a@.validation[x] == a.validation@[x]@);
        }
        assert forall|x: int| 0 <= x < a@.families.len() implies (#[trigger] a@.families[x]).len() > 0 by {
            assert(a@.families[x] == fam@[x]@);
        }
        assert forall|x: int, y: int| 0 <= x < y < a@.families.len() implies a@.families[x] != a@.families[y] by {
            assert(a@.families[x] == fam@[x]@);
            assert(a@.families[y] == fam@[y]@);
        }
    }
    Ok(())
}

/// Appends the magic of lexicon artifacts.
fn put_lexicon_magic(out: &mut Vec<u8>)
    ensures
        final(out)@ == old(out)@ + lexicon_magic(),
{
    out.push(84u8);
    out.push(69u8);
    out.push(67u8);
    out.push(65u8);
    out.push(76u8);
    out.push(88u8);
    out.push(48u8);
    out.push(50u8);
    proof {
        assert(out@ =~= old(out)@ + lexicon_magic());
    }
}

/// Appends a count, refusing one beyond `u32`.
fn put_count(out: &mut Vec<u8>, n: usize) -> (r: Result<(), ArtifactError>)
    ensures
        n <= u32::MAX ==> r is Ok && final(out)@ == old(out)@ + be32(n as u32),
        n > u32::MAX ==> r == Err::<(), ArtifactError>(ArtifactError::CountOverflow),
{
    if n > 4294967295usize {
        return Err(ArtifactError::CountOverflow);
    }
    put_u32(out, n as u32);
    Ok(())
}

/// Whether the strings after the atoms all fit their prefixes.
pub open spec fn lexicon_strings_encodable(a: LexiconArtifactView) -> bool {
    &&& fits(encode_utf8(a.renderer))
    &&& fits(encode_utf8(a.profile))
    &&& a.validation.len() <= u32::MAX
    &&& all_strings_fit(a.validation)
    &&& a.families.len() <= u32::MAX
    &&& all_strings_fit(a.families)
    &&& a.provenance.len() <= u32::MAX
    &&& all_strings_fit(prov_strings(a.provenance))
}

/// Appends a count and that many byte strings.
fn put_counted_bytes(out: &mut Vec<u8>, vs: &[Vec<u8>]) -> (r: Result<(), ArtifactError>)
    ensures
        vs@.len() <= u32::MAX && all_fit(byte_views(vs@)) ==> r is Ok && final(out)@ == old(out)@ + (be32(
            vs@.len() as u32,
        ) + enc_bytes_seq(byte_views(vs@))),
        !(vs@.len() <= u32::MAX && all_fit(byte_views(vs@))) ==> r == Err::<(), ArtifactError>(ArtifactError::CountOverflow),
{
    match put_count(out, vs.len()) {
        Ok(()) => {},
        Err(e) => {
            return Err(e);
        },
    }
    let ghost mid = out@;
    match put_bytes_seq(out, vs) {
        Ok(()) => {},
        Err(e) => {
            return Err(e);
        },
    }
    proof {
        assert(out@ =~= old(out)@ + (be32(vs@.len() as u32) + enc_bytes_seq(byte_views(vs@))));
    }
    Ok(())
}

/// Appends a count and that many strings.
fn put_counted_strings(out: &mut Vec<u8>, ss: &[String]) -> (r: Result<(), ArtifactError>)
    ensures
        ss@.len() <= u32::MAX && all_strings_fit(string_views(ss@)) ==> r is Ok && final(out)@ == old(out)@ + (be32(
            ss@.len() as u32,
        ) + enc_string_seq(string_views(ss@))),
        !(ss@.len() <= u32::MAX && all_strings_fit(string_views(ss@))) ==> r == Err::<(), ArtifactError>(
            ArtifactError::CountOverflow,
        ),
{
    match put_count(out, ss.len()) {
        Ok(()) => {},
        Err(e) => {
            return Err(e);
        },
    }
    match put_string_seq(out, ss) {
        Ok(()) => {},
        Err(e) => {
            return Err(e);
        },
    }
    proof {
        assert(out@ =~= old(out)@ + (be32(ss@.len() as u32) + enc_string_seq(string_views(ss@))));
    }
    Ok(())
}

/// Appends everything after the atoms.
#[verifier::rlimit(50)]
fn put_lexicon_strings(out: &mut Vec<u8>, artifact: &LexiconArtifact) -> (r: Result<(), ArtifactError>)
    ensures
        lexicon_strings_encodable(artifact@) ==> r is Ok && final(out)@ == old(out)@ + lex_tail_strings(artifact@),
        !lexicon_strings_encodable(artifact@) ==> r == Err::<(), ArtifactError>(ArtifactError::CountOverflow),
{
    match put_string(out, &artifact.renderer) {
        Ok(()) => {},
        Err(e) => {
            return Err(e);
        },
    }
    match put_string(out, &artifact.profile) {
        Ok(()) => {},
        Err(e) => {
            return Err(e);
        },
    }
    match put_counted_strings(out, artifact.validation.as_slice()) {
        Ok(()) => {},
        Err(e) => {
            return Err(e);
        },
    }
    match put_counted_strings(out, artifact.tokenizer_families.as_slice()) {
        Ok(()) => {},
        Err(e) => {
            return Err(e);
        },
    }
    match put_provenance(out, artifact.provenance.as_slice()) {
        Ok(()) => {},
        Err(e) => {
            return Err(e);
        },
    }
    proof {
        assert(out@ =~= old(out)@ + lex_tail_strings(artifact@));
    }
    Ok(())
}

/// Serializes a lexicon artifact.
pub fn encode_lexicon(artifact: &LexiconArtifact) -> (r: Result<Vec<u8>, ArtifactError>)
    ensures
        !lexicon_metadata_ok(artifact@) ==> (r matches Err(e) && e is InvalidLexiconMetadata),
        lexicon_metadata_ok(artifact@) && !lexicon_encodable(artifact@) ==> r == Err::<Vec<u8>, ArtifactError>(
            ArtifactError::CountOverflow,
        ),
        lexicon_metadata_ok(artifact@) && lexicon_encodable(artifact@) ==> (r matches Ok(v) && v@ == lexicon_artifact_bytes(
            artifact@,
        )),
{
    match validate_lexicon_metadata(artifact) {
        Ok(()) => {},
        Err(e) => {
            return Err(e);
        },
    }
    let mut out: Vec<u8> = Vec::new();
    put_lexicon_magic(&mut out);
    match put_counted_bytes(&mut out, artifact.lexicon.atoms()) {
        Ok(()) => {},
        Err(e) => {
            return Err(e);
        },
    }
    match put_lexicon_strings(&mut out, artifact) {
        Ok(()) => {},
        Err(e) => {
            return Err(e);
        },
    }
    proof {
        assert(out@ =~= lexicon_artifact_bytes(artifact@));
    }
    Ok(out)
}

/// Reads a count and that many byte strings.
fn read_counted_bytes(bytes: &[u8], pos: usize) -> (r: Result<(Vec<Vec<u8>>, usize), ArtifactError>)
    ensures
        r matches Ok((vs, p)) ==> {
            let piece = be32(vs@.len() as u32) + enc_bytes_seq(byte_views(vs@));
            &&& pos <= p <= bytes@.len()
            &&& p == pos + piece.len()
            &&& is_at(bytes@, pos as int, piece)
            &&& vs@.len() <= u32::MAX
            &&& all_fit(byte_views(vs@))
        },
        r matches Err(e) ==> e == ArtifactError::Truncated,
        forall|vs: Seq<Seq<u8>>|
            vs.len() <= u32::MAX && all_fit(vs) && #[trigger] is_at(bytes@, pos as int, be32(vs.len() as u32) + enc_bytes_seq(vs))
                ==> (r matches Ok((ws, p)) && byte_views(ws@) == vs && p == pos + 4 + enc_bytes_seq(vs).len()),
{
    let (n, p) = match read_u32(bytes, pos) {
        Ok(x) => x,
        Err(e) => {
            proof {
                assert forall|vs: Seq<Seq<u8>>| vs.len() <= u32::MAX && all_fit(vs) && #[trigger] is_at(
                    bytes@,
                    pos as int,
                    be32(vs.len() as u32) + enc_bytes_seq(vs),
                ) implies false by {}
            }
            return Err(e);
        },
    };
    proof {
        assert forall|vs: Seq<Seq<u8>>| vs.len() <= u32::MAX && all_fit(vs) && #[trigger] is_at(
            bytes@,
            pos as int,
            be32(vs.len() as u32) + enc_bytes_seq(vs),
        ) implies vs.len() == n && is_at(bytes@, p as int, enc_bytes_seq(vs)) by {
            lemma_is_at_split(bytes@, pos as int, be32(vs.len() as u32), enc_bytes_seq(vs));
            lemma_be32_injective(n, vs.len() as u32);
        }
    }
    let (vs, q) = match read_bytes_seq(bytes, p, n as usize) {
        Ok(x) => x,
        Err(e) => {
            return Err(e);
        },
    };
    proof {
        lemma_is_at_join(bytes@, pos as int, be32(n), enc_bytes_seq(byte_views(vs@)));
    }
    Ok((vs, q))
}

/// Reads a count and that many strings.
fn read_counted_strings(bytes: &[u8], pos: usize) -> (r: Result<(Vec<String>, usize), ArtifactError>)
    ensures
        r matches Ok((ss, p)) ==> {
            let piece = be32(ss@.len() as u32) + enc_string_seq(string_views(ss@));
            &&& pos <= p <= bytes@.len()
            &&& p == pos + piece.len()
            &&& is_at(bytes@, pos as int, piece)
            &&& ss@.len() <= u32::MAX
            &&& all_strings_fit(string_views(ss@))
        },
        r matches Err(e) ==> e == ArtifactError::Truncated || e == ArtifactError::InvalidUtf8,
        forall|ss: Seq<Seq<char>>|
            ss.len() <= u32::MAX && all_strings_fit(ss) && #[trigger] is_at(
                bytes@,
                pos as int,
                be32(ss.len() as u32) + enc_string_seq(ss),
            ) ==> (r matches Ok((ts, p)) && string_views(ts@) == ss && p == pos + 4 + enc_string_seq(ss).len()),
{
    let (n, p) = match read_u32(bytes, pos) {
        Ok(x) => x,
        Err(e) => {
            proof {
                assert forall|ss: Seq<Seq<char>>| ss.len() <= u32::MAX && all_strings_fit(ss) && #[trigger] is_at(
                    bytes@,
                    pos as int,
                    be32(ss.len() as u32) + enc_string_seq(ss),
                ) implies false by {}
            }
            return Err(e);
        },
    };
    proof {
        assert forall|ss: Seq<Seq<char>>| ss.len() <= u32::MAX && all_strings_fit(ss) && #[trigger] is_at(
            bytes@,
            pos as int,
            be32(ss.len() as u32) + enc_string_seq(ss),
        ) implies ss.len() == n && is_at(bytes@, p as int, enc_string_seq(ss)) by {
            lemma_is_at_split(bytes@, pos as int, be32(ss.len() as u32), enc_string_seq(ss));
            lemma_be32_injective(n, ss.len() as u32);
        }
    }
    let (ss, q) = match read_string_seq(bytes, p, n as usize) {
        Ok(x) => x,
        Err(e) => {
            return Err(e);
        },
    };
    proof {
        lemma_is_at_join(bytes@, pos as int, be32(n), enc_string_seq(string_views(ss@)));
    }
    Ok((ss, q))
}

/// The strings after the atoms of a lexicon artifact.
struct LexiconStrings {
    renderer: String,
    profile: String,
    validation: Vec<String>,
    families: Vec<String>,
    provenance: Vec<ProvenanceRecord>,
}

/// Whether `x` holds the string fields of `a`.
spec fn strings_match(x: LexiconStrings, a: LexiconArtifactView) -> bool {
    &&& x.renderer@ == a.renderer
    &&& x.profile@ == a.profile
    &&& string_views(x.validation@) == a.validation
    &&& string_views(x.families@) == a.families
    &&& x.provenance@.map_values(|p: ProvenanceRecord| p@) == a.provenance
}

/// Reads everything after the atoms.
fn read_lexicon_strings(bytes: &[u8], pos: usize) -> (r: Result<(LexiconStrings, usize), ArtifactError>)
    ensures
        r matches Ok((x, p)) ==> forall|a: LexiconArtifactView|
            #[trigger] strings_match(x, a) ==> lexicon_strings_encodable(a) && is_at(bytes@, pos as int, lex_tail_strings(a))
                && p == pos + lex_tail_strings(a).len(),
        r matches Ok((x, p)) ==> pos <= p <= bytes@.len(),
        forall|a: LexiconArtifactView|
            lexicon_strings_encodable(a) && #[trigger] is_at(bytes@, pos as int, lex_tail_strings(a)) ==> (r matches Ok((x, p))
                && strings_match(x, a) && p == pos + lex_tail_strings(a).len()),
{
    proof {
        assert forall|a: LexiconArtifactView| lexicon_strings_encodable(a) && #[trigger] is_at(bytes@, pos as int, lex_tail_strings(a)) implies is_at(
            bytes@,
            pos as int,
            enc_string(a.renderer),
        ) by {
            lemma_is_at_split(bytes@, pos as int, enc_string(a.renderer), enc_string(a.profile) + lex_tail_validation(a));
        }
    }
    let (renderer, p1) = match read_string(bytes, pos) {
        Ok(x) => x,
        Err(e) => {
            return Err(e);
        },
    };
    proof {
        assert forall|a: LexiconArtifactView| lexicon_strings_encodable(a) && #[trigger] is_at(bytes@, pos as int, lex_tail_strings(a)) implies is_at(
            bytes@,
            p1 as int,
            enc_string(a.profile),
        ) && a.renderer == renderer@ by {
            lemma_is_at_split(bytes@, pos as int, enc_string(a.renderer), enc_string(a.profile) + lex_tail_validation(a));
            lemma_is_at_split(bytes@, p1 as int, enc_string(a.profile), lex_tail_validation(a));
        }
    }
    let (profile, p2) = match read_string(bytes, p1) {
        Ok(x) => x,
        Err(e) => {
            return Err(e);
        },
    };
    proof {
        assert forall|a: LexiconArtifactView| lexicon_strings_encodable(a) && #[trigger] is_at(bytes@, pos as int, lex_tail_strings(a)) implies is_at(
            bytes@,
            p2 as int,
            lex_tail_validation(a),
        ) && a.profile == profile@ by {
            lemma_is_at_split(bytes@, pos as int, enc_string(a.renderer), enc_string(a.profile) + lex_tail_validation(a));
            lemma_is_at_split(bytes@, p1 as int, enc_string(a.profile), lex_tail_validation(a));
        }
        assert forall|a: LexiconArtifactView| lexicon_strings_encodable(a) && #[trigger] is_at(bytes@, p2 as int, lex_tail_validation(a)) implies is_at(
            bytes@,
            p2 as int,
            be32(a.validation.len() as u32) + enc_string_seq(a.validation),
        ) by {
            assert(lex_tail_validation(a) =~= (be32(a.validation.len() as u32) + enc_string_seq(a.validation)) + lex_tail_families(a));
            lemma_is_at_split(bytes@, p2 as int, be32(a.validation.len() as u32) + enc_string_seq(a.validation), lex_tail_families(a));
        }
    }
    let (validation, p3) = match read_counted_strings(bytes, p2) {
        Ok(x) => x,
        Err(e) => {
            return Err(e);
        },
    };
    proof {
        assert forall|a: LexiconArtifactView| lexicon_strings_encodable(a) && #[trigger] is_at(bytes@, p2 as int, lex_tail_validation(a)) implies is_at(
            bytes@,
            p3 as int,
            lex_tail_families(a),
        ) && a.validation == string_views(validation@) by {
            assert(lex_tail_validation(a) =~= (be32(a.validation.len() as u32) + enc_string_seq(a.validation)) + lex_tail_families(a));
            lemma_is_at_split(bytes@, p2 as int, be32(a.validation.len() as u32) + enc_string_seq(a.validation), lex_tail_families(a));
        }
        assert forall|a: LexiconArtifactView| lexicon_strings_encodable(a) && #[trigger] is_at(bytes@, p3 as int, lex_tail_families(a)) implies is_at(
            bytes@,
            p3 as int,
            be32(a.families.len() as u32) + enc_string_seq(a.families),
        ) by {
            assert(lex_tail_families(a) =~= (be32(a.families.len() as u32) + enc_string_seq(a.families)) + enc_provenance(a.provenance));
            lemma_is_at_split(bytes@, p3 as int, be32(a.families.len() as u32) + enc_string_seq(a.families), enc_provenance(a.provenance));
        }
    }
    let (families, p4) = match read_counted_strings(bytes, p3) {
        Ok(x) => x,
        Err(e) => {
            return Err(e);
        },
    };
    proof {
        assert forall|a: LexiconArtifactView| lexicon_strings_encodable(a) && #[trigger] is_at(bytes@, p3 as int, lex_tail_families(a)) implies is_at(
            bytes@,
            p4 as int,
            enc_provenance(a.provenance),
        ) && a.families == string_views(families@) by {
            assert(lex_tail_families(a) =~= (be32(a.families.len() as u32) + enc_string_seq(a.families)) + enc_provenance(a.provenance));
            lemma_is_at_split(bytes@, p3 as int, be32(a.families.len() as u32) + enc_string_seq(a.families), enc_provenance(a.provenance));
        }
    }
    let (provenance, p5) = match read_provenance(bytes, p4) {
        Ok(x) => x,
        Err(e) => {
            return Err(e);
        },
    };
    let x = LexiconStrings { renderer, profile, validation, families, provenance };
    proof {
        assert forall|a: LexiconArtifactView| #[trigger] strings_match(x, a) implies lexicon_strings_encodable(a) && is_at(
            bytes@,
            pos as int,
            lex_tail_strings(a),
        ) && p5 == pos + lex_tail_strings(a).len() by {
            lemma_is_at_join(
                bytes@,
                p3 as int,
                be32(a.families.len() as u32) + enc_string_seq(a.families),
                enc_provenance(a.provenance),
            );
            assert(lex_tail_families(a) =~= (be32(a.families.len() as u32) + enc_string_seq(a.families)) + enc_provenance(a.provenance));
            lemma_is_at_join(
                bytes@,
                p2 as int,
                be32(a.validation.len() as u32) + enc_string_seq(a.validation),
                lex_tail_families(a),
            );
            assert(lex_tail_validation(a) =~= (be32(a.validation.len() as u32) + enc_string_seq(a.validation)) + lex_tail_families(a));
            lemma_is_at_join(bytes@, p1 as int, enc_string(a.profile), lex_tail_validation(a));
            lemma_is_at_join(bytes@, pos as int, enc_string(a.renderer), enc_string(a.profile) + lex_tail_validation(a));
        }
    }
    Ok((x, p5))
}

/// Checks the leading magic: `Truncated` below eight bytes, `BadMagic` when
/// the first eight differ.
pub(crate) fn check_magic(bytes: &[u8], magic: &[u8; 8]) -> (r: Result<(), ArtifactError>)
    ensures
        bytes@.len() < 8 ==> r == Err::<(), ArtifactError>(ArtifactError::Truncated),
        bytes@.len() >= 8 && bytes@.take(8) != magic@ ==> r == Err::<(), ArtifactError>(ArtifactError::BadMagic),
        bytes@.len() >= 8 && bytes@.take(8) == magic@ ==> r is Ok,
{
    if bytes.len() < 8 {
        return Err(ArtifactError::Truncated);
    }
    let mut i: usize = 0;
    while i < 8
        invariant
            i <= 8,
            bytes@.len() >= 8,
            forall|k: int| 0 <= k < i ==> bytes@[k] == magic@[k],
        decreases 8 - i,
    {
        if bytes[i] != magic[i] {
            proof {
                assert(bytes@.take(8)[i as int] != magic@[i as int]);
            }
            return Err(ArtifactError::BadMagic);
        }
        i = i + 1;
    }
    proof {
        assert(bytes@.take(8) =~= magic@);
    }
    Ok(())
}

/// A lexicon artifact the decoder accepts back: a valid lexicon, valid
/// metadata, and counts and lengths that fit.
pub open spec fn lexicon_artifact_ok(a: LexiconArtifactView) -> bool {
    lexicon_ok(a.atoms) && lexicon_metadata_ok(a) && lexicon_encodable(a)
}

/// Reads the atoms and strings of a lexicon artifact, without validating
/// them.
#[verifier::rlimit(100)]
fn parse_lexicon_parts(bytes: &[u8]) -> (r: Result<(Vec<Vec<u8>>, LexiconStrings), ArtifactError>)
    ensures
        bytes@.len() < 8 ==> r == Err::<(Vec<Vec<u8>>, LexiconStrings), ArtifactError>(ArtifactError::Truncated),
        bytes@.len() >= 8 && bytes@.take(8) != lexicon_magic() ==> r == Err::<
            (Vec<Vec<u8>>, LexiconStrings),
            ArtifactError,
        >(ArtifactError::BadMagic),
        r matches Ok((atoms, x)) ==> forall|a: LexiconArtifactView|
            a.atoms == byte_views(atoms@) && #[trigger] strings_match(x, a) ==> lexicon_encodable(a) && lexicon_artifact_bytes(a)
                == bytes@,
        forall|a: LexiconArtifactView|
            lexicon_encodable(a) && #[trigger] lexicon_artifact_bytes(a) == bytes@ ==> (r matches Ok((atoms, x)) && byte_views(
                atoms@,
            ) == a.atoms && strings_match(x, a)),
{
    let magic: [u8; 8] = [84u8, 69u8, 67u8, 65u8, 76u8, 88u8, 48u8, 50u8];
    proof {
        assert(magic@ =~= lexicon_magic());
    }
    match check_magic(bytes, &magic) {
        Ok(()) => {},
        Err(e) => {
            proof {
                assert forall|a: LexiconArtifactView| lexicon_encodable(a) && #[trigger] lexicon_artifact_bytes(a) == bytes@ implies false by {
                    assert(lexicon_artifact_bytes(a).take(8) =~= lexicon_magic());
                }
            }
            return Err(e);
        },
    }
    proof {
        assert(bytes@.subrange(0, bytes@.len() as int) =~= bytes@);
        assert forall|a: LexiconArtifactView| lexicon_encodable(a) && #[trigger] lexicon_artifact_bytes(a) == bytes@ implies is_at(
            bytes@,
            8,
            be32(a.atoms.len() as u32) + enc_bytes_seq(a.atoms),
        ) && is_at(bytes@, 12int + enc_bytes_seq(a.atoms).len(), lex_tail_strings(a)) by {
            assert(bytes@ =~= lexicon_magic() + ((be32(a.atoms.len() as u32) + enc_bytes_seq(a.atoms)) + lex_tail_strings(a)));
            assert(is_at(bytes@, 0, bytes@));
            lemma_is_at_split(bytes@, 0, lexicon_magic(), (be32(a.atoms.len() as u32) + enc_bytes_seq(a.atoms)) + lex_tail_strings(a));
            lemma_is_at_split(bytes@, 8, be32(a.atoms.len() as u32) + enc_bytes_seq(a.atoms), lex_tail_strings(a));
        }
    }
    let (atoms, p) = match read_counted_bytes(bytes, 8) {
        Ok(x) => x,
        Err(e) => {
            return Err(e);
        },
    };
    let ghost av = byte_views(atoms@);
    let (x, q) = match read_lexicon_strings(bytes, p) {
        Ok(x) => x,
        Err(e) => {
            return Err(e);
        },
    };
    if q != bytes.len() {
        proof {
            assert forall|a: LexiconArtifactView| lexicon_encodable(a) && #[trigger] lexicon_artifact_bytes(a) == bytes@ implies false by {
                assert(a.atoms == av);
                assert(strings_match(x, a));
            }
        }
        return Err(ArtifactError::TrailingBytes);
    }
    proof {
        assert forall|a: LexiconArtifactView| a.atoms == byte_views(atoms@) && #[trigger] strings_match(x, a) implies lexicon_encodable(
            a,
        ) && lexicon_artifact_bytes(a) == bytes@ by {
            lemma_is_at_join(bytes@, 8, be32(av.len() as u32) + enc_bytes_seq(av), lex_tail_strings(a));
            assert(bytes@.take(8) =~= bytes@.subrange(0, 8));
            lemma_is_at_join(bytes@, 0, lexicon_magic(), (be32(av.len() as u32) + enc_bytes_seq(av)) + lex_tail_strings(a));
            assert(lexicon_artifact_bytes(a) =~= lexicon_magic() + ((be32(av.len() as u32) + enc_bytes_seq(av))
                + lex_tail_strings(a)));
        }
        assert forall|a: LexiconArtifactView| lexicon_encodable(a) && #[trigger] lexicon_artifact_bytes(a) == bytes@ implies byte_views(
            atoms@,
        ) == a.atoms && strings_match(x, a) by {}
    }
    Ok((atoms, x))
}

/// Parses a lexicon artifact.
pub fn decode_lexicon(bytes: &[u8]) -> (r: Result<LexiconArtifact, ArtifactError>)
    ensures
        bytes@.len() < 8 ==> r == Err::<LexiconArtifact, ArtifactError>(ArtifactError::Truncated),
        bytes@.len() >= 8 && bytes@.take(8) != lexicon_magic() ==> r == Err::<LexiconArtifact, ArtifactError>(
            ArtifactError::BadMagic,
        ),
        r matches Ok(a) ==> a.lexicon.wf() && lexicon_artifact_ok(a@) && lexicon_artifact_bytes(a@) == bytes@,
        forall|a: LexiconArtifactView|
            lexicon_artifact_ok(a) && #[trigger] lexicon_artifact_bytes(a) == bytes@ ==> (r matches Ok(x) && x@ == a),
{
    let (atoms, x) = match parse_lexicon_parts(bytes) {
        Ok(parts) => parts,
        Err(e) => {
            return Err(e);
        },
    };
    let ghost av = byte_views(atoms@);
    let lexicon = match Lexicon::new(atoms) {
        Ok(l) => l,
        Err(e) => {
            proof {
                assert forall|a: LexiconArtifactView| lexicon_artifact_ok(a) && #[trigger] lexicon_artifact_bytes(a) == bytes@ implies false by {
                    assert(a.atoms == av);
                }
            }
            return Err(ArtifactError::InvalidLexicon(e));
        },
    };
    let artifact = LexiconArtifact {
        lexicon,
        renderer: x.renderer,
        profile: x.profile,
        validation: x.validation,
        tokenizer_families: x.families,
        provenance: x.provenance,
    };
    proof {
        assert(strings_match(x, artifact@));
        assert(artifact@.atoms == av);
        assert forall|a: LexiconArtifactView| lexicon_artifact_ok(a) && #[trigger] lexicon_artifact_bytes(a) == bytes@ implies artifact@
            == a by {
            assert(a.atoms == av);
            assert(strings_match(x, a));
        }
    }
    match validate_lexicon_metadata(&artifact) {
        Ok(()) => {},
        Err(e) => {
            return Err(e);
        },
    }
    proof {
        artifact.lexicon.lemma_wf();
    }
    Ok(artifact)
}

} // verus!
