//! SHA-256 digests of text, rendered as lower-case hexadecimal.

use vstd::prelude::*;

verus! {

/// The SHA-256 digest of `data`.
pub uninterp spec fn sha256_of(data: Seq<u8>) -> Seq<u8>;

/// SHA-256 of `data` (`sha2::Sha256::digest`): the 32-byte digest, which is
/// a function of the input bytes alone.
#[verifier::external_body]
pub(crate) fn sha256(data: &[u8]) -> (r: Vec<u8>)
    ensures
        r@ == sha256_of(data@),
        r@.len() == 32,
{
    <sha2::Sha256 as sha2::Digest>::digest(data).to_vec()
}

/// The UTF-8 encoding of one character.
pub open spec fn utf8_char(c: char) -> Seq<u8> {
    let u = c as u32;
    if u < 0x80 {
        seq![u as u8]
    } else if u < 0x800 {
        seq![(0xC0 + u / 64) as u8, (0x80 + u % 64) as u8]
    } else if u < 0x10000 {
        seq![(0xE0 + u / 4096) as u8, (0x80 + (u / 64) % 64) as u8, (0x80 + u % 64) as u8]
    } else {
        seq![
            (0xF0 + u / 262144) as u8,
            (0x80 + (u / 4096) % 64) as u8,
            (0x80 + (u / 64) % 64) as u8,
            (0x80 + u % 64) as u8,
        ]
    }
}

/// The UTF-8 encoding of a text (`str::as_bytes`).
pub open spec fn utf8(s: Seq<char>) -> Seq<u8>
    decreases s.len(),
{
    if s.len() == 0 {
        seq![]
    } else {
        utf8(s.drop_last()) + utf8_char(s.last())
    }
}

/// The UTF-8 bytes of `s`.
pub fn utf8_bytes(s: &str) -> (r: Vec<u8>)
    ensures
        r@ == utf8(s@),
{
    let v = crate::text::chars_of(s);
    let mut out: Vec<u8> = Vec::new();
    let mut i: usize = 0;
    assert(v@.take(0) =~= Seq::<char>::empty());
    while i < v.len()
        invariant
            i <= v@.len(),
            v@ == s@,
            out@ == utf8(v@.take(i as int)),
        decreases v@.len() - i,
    {
        let c = v[i];
        let u = c as u32;
        if u < 0x80 {
            out.push(u as u8);
        } else if u < 0x800 {
            out.push((0xC0 + u / 64) as u8);
            out.push((0x80 + u % 64) as u8);
        } else if u < 0x10000 {
            out.push((0xE0 + u / 4096) as u8);
            out.push((0x80 + (u / 64) % 64) as u8);
            out.push((0x80 + u % 64) as u8);
        } else {
            out.push((0xF0 + u / 262144) as u8);
            out.push((0x80 + (u / 4096) % 64) as u8);
            out.push((0x80 + (u / 64) % 64) as u8);
            out.push((0x80 + u % 64) as u8);
        }
        proof {
            assert(v@.take(i + 1).drop_last() =~= v@.take(i as int));
            assert(v@.take(i + 1).last() == c);
            assert(out@ =~= utf8(v@.take(i + 1)));
        }
        i = i + 1;
    }
    assert(v@.take(v@.len() as int) =~= v@);
    out
}

pub open spec fn hex_digit(d: nat) -> char {
    if d < 10 {
        ((d + 48) as u32) as char
    } else {
        ((d + 87) as u32) as char
    }
}

/// Lower-case hexadecimal, two digits per byte.
pub open spec fn hex(bytes: Seq<u8>) -> Seq<char>
    decreases bytes.len(),
{
    if bytes.len() == 0 {
        seq![]
    } else {
        hex(bytes.drop_last()) + seq![hex_digit((bytes.last() / 16) as nat), hex_digit((bytes.last() % 16) as nat)]
    }
}

fn hex_char(d: u8) -> (c: char)
    requires
        d < 16,
    ensures
        c == hex_digit(d as nat),
{
    if d < 10 {
        ((d + 48) as u8) as char
    } else {
        ((d + 87) as u8) as char
    }
}

/// `bytes` as lower-case hexadecimal.
pub fn hex_string(bytes: &[u8]) -> (r: String)
    ensures
        r@ == hex(bytes@),
{
    let mut out = String::new();
    let mut i: usize = 0;
    assert(bytes@.take(0) =~= Seq::<u8>::empty());
    while i < bytes.len()
        invariant
            i <= bytes@.len(),
            out@ == hex(bytes@.take(i as int)),
        decreases bytes@.len() - i,
    {
        let b = bytes[i];
        crate::text::push_char(&mut out, hex_char(b / 16));
        crate::text::push_char(&mut out, hex_char(b % 16));
        proof {
            assert(bytes@.take(i + 1).drop_last() =~= bytes@.take(i as int));
            assert(bytes@.take(i + 1).last() == b);
            assert(out@ =~= hex(bytes@.take(i + 1)));
        }
        i = i + 1;
    }
    assert(bytes@.take(bytes@.len() as int) =~= bytes@);
    out
}

/// The SHA-256 of a text's UTF-8 bytes in lower-case hexadecimal.
pub open spec fn text_hash(s: Seq<char>) -> Seq<char> {
    hex(sha256_of(utf8(s)))
}

/// SHA-256 of the UTF-8 bytes of `text`, as 64 lower-case hex digits.
pub fn hash_text(text: &str) -> (r: String)
    ensures
        r@ == text_hash(text@),
        r@.len() == 64,
{
    let bytes = utf8_bytes(text);
    let digest = sha256(bytes.as_slice());
    proof {
        lemma_hex_len(digest@);
    }
    hex_string(digest.as_slice())
}

/// SHA-256 of raw bytes, as 64 lower-case hex digits.
pub fn hash_bytes(bytes: &[u8]) -> (r: String)
    ensures
        r@ == hex(sha256_of(bytes@)),
        r@.len() == 64,
{
    let digest = sha256(bytes);
    proof {
        lemma_hex_len(digest@);
    }
    hex_string(digest.as_slice())
}

proof fn lemma_hex_len(bytes: Seq<u8>)
    ensures
        hex(bytes).len() == 2 * bytes.len(),
    decreases bytes.len(),
{
    if bytes.len() > 0 {
        lemma_hex_len(bytes.drop_last());
    }
}

} // verus!
