//! BLAKE3 digests and their lowercase hex rendering.

use vstd::prelude::*;
use vstd::utf8::encode_utf8;
use crate::text::{push_char, push_str};

verus! {

/// The BLAKE3 digest of a byte string (32 bytes, BLAKE3's default output length).
pub uninterp spec fn blake3_digest(input: Seq<u8>) -> Seq<u8>;

/// `blake3::hash`: the 32-byte BLAKE3 digest of `input`. The contract names the digest
/// and states its length, which BLAKE3 fixes at 32 bytes; nothing else about it.
#[verifier::external_body]
pub(crate) fn blake3_hash(input: &[u8]) -> (res: Vec<u8>)
    ensures
        res@ == blake3_digest(input@),
        res@.len() == 32,
{
    blake3::hash(input).as_bytes().to_vec()
}

/// The lowercase hex digit of a nibble.
pub open spec fn hex_digit(n: int) -> char {
    seq!['0', '1', '2', '3', '4', '5', '6', '7', '8', '9', 'a', 'b', 'c', 'd', 'e', 'f'][n]
}

/// Each byte as two lowercase hex digits, high nibble first.
pub open spec fn hex_lower(bytes: Seq<u8>) -> Seq<char>
    decreases bytes.len(),
{
    if bytes.len() == 0 {
        Seq::empty()
    } else {
        hex_lower(bytes.drop_last()) + seq![hex_digit(bytes.last() as int / 16), hex_digit(bytes.last() as int % 16)]
    }
}

/// `hex::encode`: every byte as two lowercase hex digits, high nibble first, as its
/// documentation states.
#[verifier::external_body]
pub(crate) fn hex_encode(bytes: &[u8]) -> (res: String)
    ensures
        res@ == hex_lower(bytes@),
{
    hex::encode(bytes)
}

/// The lowercase hex BLAKE3 digest of `input`.
pub fn blake3_hex(input: &[u8]) -> (res: String)
    ensures
        res@ == hex_lower(blake3_digest(input@)),
        res@.len() == 64,
{
    let d = blake3_hash(input);
    let h = hex_encode(d.as_slice());
    proof {
        lemma_hex_len(d@);
    }
    h
}

/// Hex doubles the length.
pub proof fn lemma_hex_len(bytes: Seq<u8>)
    ensures
        hex_lower(bytes).len() == 2 * bytes.len(),
    decreases bytes.len(),
{
    if bytes.len() > 0 {
        lemma_hex_len(bytes.drop_last());
    }
}


/// The lowest `width` hex digits of `n`, most significant first, zero-padded.
pub open spec fn hex_fixed(n: nat, width: nat) -> Seq<char>
    decreases width,
{
    if width == 0 {
        Seq::empty()
    } else {
        hex_fixed(n / 16, (width - 1) as nat) + seq![hex_digit((n % 16) as int)]
    }
}

/// The text `blake3_combined` hashes: each part prefixed by its UTF-8 byte length as
/// sixteen lowercase hex digits and a colon.
pub open spec fn combined_text(parts: Seq<Seq<char>>) -> Seq<char>
    decreases parts.len(),
{
    if parts.len() == 0 {
        Seq::empty()
    } else {
        combined_text(parts.drop_last()) + hex_fixed(encode_utf8(parts.last()).len(), 16) + ":"@ + parts.last()
    }
}

/// The hex digit of a nibble.
fn hex_char(d: u64) -> (c: char)
    requires
        d < 16,
    ensures
        c == hex_digit(d as int),
{
    let digits = ['0', '1', '2', '3', '4', '5', '6', '7', '8', '9', 'a', 'b', 'c', 'd', 'e', 'f'];
    proof {
        assert(digits@ =~= seq!['0', '1', '2', '3', '4', '5', '6', '7', '8', '9', 'a', 'b', 'c', 'd', 'e', 'f']);
    }
    digits[d as usize]
}

/// Appends the lowest `width` hex digits of `n`.
fn push_hex_fixed(out: &mut String, n: u64, width: u64)
    ensures
        final(out)@ == old(out)@ + hex_fixed(n as nat, width as nat),
    decreases width,
{
    if width > 0 {
        push_hex_fixed(out, n / 16, width - 1);
        push_char(out, hex_char(n % 16));
        proof {
            assert(final(out)@ =~= old(out)@ + hex_fixed(n as nat, width as nat));
        }
    } else {
        proof {
            assert(final(out)@ =~= old(out)@ + hex_fixed(n as nat, width as nat));
        }
    }
}

/// The combined BLAKE3 digest of several strings: each is length-prefixed (sixteen hex
/// digits of its byte length and a colon) so that distinct lists never share an input,
/// and the concatenation is hashed.
pub fn blake3_combined(parts: &Vec<String>) -> (res: String)
    ensures
        res@ == hex_lower(blake3_digest(encode_utf8(combined_text(parts@.map_values(|p: String| p@))))),
        res@.len() == 64,
{
    let ghost views = parts@.map_values(|p: String| p@);
    let mut combined = String::new();
    let mut k: usize = 0;
    while k < parts.len()
        invariant
            k <= parts@.len(),
            views == parts@.map_values(|p: String| p@),
            combined@ == combined_text(views.take(k as int)),
        decreases parts@.len() - k,
    {
        let n = parts[k].as_str().as_bytes().len();
        push_hex_fixed(&mut combined, n as u64, 16);
        push_str(&mut combined, ":");
        push_str(&mut combined, parts[k].as_str());
        proof {
            let t = views.take(k + 1);
            assert(t.drop_last() =~= views.take(k as int));
            assert(t.last() == parts@[k as int]@);
            assert(combined@ =~= combined_text(t));
        }
        k = k + 1;
    }
    proof {
        assert(views.take(k as int) =~= views);
    }
    blake3_hex(combined.as_str().as_bytes())
}

} // verus!
