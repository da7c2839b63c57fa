//! The outside codecs the library relies on: SHA-1 (`sha1`), hexadecimal
//! text (`hex`) and zlib streams (`flate2`). Their contracts are trusted.
use std::io::Read;
use std::io::Write;

use flate2::read::ZlibDecoder;
use flate2::write::ZlibEncoder;
use flate2::Compression;
use sha1::{Digest, Sha1};
use vstd::prelude::*;

verus! {

/// The SHA-1 digest of `data`.
pub uninterp spec fn sha1_digest(data: Seq<u8>) -> Seq<u8>;

/// What a zlib decoder reads out of the zlib stream at the start of `data`,
/// or `None` where reading fails.
pub uninterp spec fn zlib_decoded(data: Seq<u8>) -> Option<Seq<u8>>;

/// How many bytes of `data` the zlib decoder consumed to produce `zlib_decoded(data)`.
pub uninterp spec fn zlib_consumed(data: Seq<u8>) -> nat;

/// The zlib stream that compressing `data` at the default level writes.
pub uninterp spec fn zlib_compressed(data: Seq<u8>) -> Seq<u8>;

/// A lowercase hexadecimal digit.
pub open spec fn hex_digit_char(d: u8) -> char {
    if d < 10 {
        ((0x30 + d) as u8) as char
    } else {
        ((0x61 + d - 10) as u8) as char
    }
}

/// Two lowercase hexadecimal digits per byte, high nibble first.
pub open spec fn hex_text(data: Seq<u8>) -> Seq<char>
    decreases data.len(),
{
    if data.len() == 0 {
        seq![]
    } else {
        seq![hex_digit_char(data[0] / 16), hex_digit_char(data[0] % 16)] + hex_text(
            data.drop_first(),
        )
    }
}

/// A lowercase hexadecimal digit: `0`-`9` or `a`-`f`.
pub open spec fn is_lower_hex_char(c: char) -> bool {
    ('0' <= c && c <= '9') || ('a' <= c && c <= 'f')
}

/// Hexadecimal text is two lowercase digits per byte.
pub proof fn lemma_hex_text_shape(data: Seq<u8>)
    ensures
        hex_text(data).len() == 2 * data.len(),
        forall|i: int| 0 <= i < hex_text(data).len() ==> is_lower_hex_char(#[trigger] hex_text(data)[i]),
    decreases data.len(),
{
    if data.len() > 0 {
        lemma_hex_text_shape(data.drop_first());
        let h = data[0] / 16;
        let l = data[0] % 16;
        assert(is_lower_hex_char(hex_digit_char(h)));
        assert(is_lower_hex_char(hex_digit_char(l)));
        let t = hex_text(data);
        let r = hex_text(data.drop_first());
        assert forall|i: int| 0 <= i < t.len() implies is_lower_hex_char(#[trigger] t[i]) by {
            if i >= 2 {
                assert(t[i] == r[i - 2]);
            }
        }
    }
}

/// `Sha1::digest` of the `sha1` crate: the 20-byte digest of `data`.
#[verifier::external_body]
pub(crate) fn sha1(data: &[u8]) -> (d: Vec<u8>)
    ensures
        d@ == sha1_digest(data@),
        d@.len() == 20,
{
    Sha1::digest(data).to_vec()
}

/// `hex::encode`: lowercase hexadecimal text of `data`, two digits per byte.
#[verifier::external_body]
pub(crate) fn hex_encode(data: &[u8]) -> (s: String)
    ensures
        s@ == hex_text(data@),
{
    hex::encode(data)
}

/// `flate2::read::ZlibDecoder` over `data`, read to its end: the bytes
/// decoded and the number of input bytes the decoder consumed (`total_in`),
/// which come out of `data`; `None` where reading fails.
#[verifier::external_body]
pub(crate) fn zlib_inflate(data: &[u8]) -> (r: Option<(Vec<u8>, usize)>)
    ensures
        r is Some <==> zlib_decoded(data@) is Some,
        r matches Some((out, n)) ==> zlib_decoded(data@) == Some(out@) && n == zlib_consumed(
            data@,
        ) && n <= data@.len(),
{
    let mut dec = ZlibDecoder::new(data);
    let mut out = Vec::new();
    match dec.read_to_end(&mut out) {
        Ok(_) => Some((out, dec.total_in() as usize)),
        Err(_) => None,
    }
}

/// `flate2::write::ZlibEncoder` at the default level, writing into a `Vec`
/// and finished: the zlib stream of `data`, which `flate2::read::ZlibDecoder`
/// reads back as `data`. Writing into memory does not fail: the encoder only
/// reports errors of its output, and a `Vec` takes every write.
#[verifier::external_body]
pub(crate) fn zlib_deflate(data: &[u8]) -> (c: Vec<u8>)
    ensures
        c@ == zlib_compressed(data@),
        zlib_decoded(c@) == Some(data@),
{
    let mut encoder = ZlibEncoder::new(Vec::new(), Compression::default());
    encoder.write_all(data).unwrap();
    encoder.finish().unwrap()
}

} // verus!
