//! The two checksums that stand in for a pattern's text.
use vstd::prelude::*;
use vstd::utf8::encode_utf8;

verus! {

/// The CRC-32 (IEEE polynomial) of a byte sequence.
pub uninterp spec fn crc32_ieee_of(b: Seq<u8>) -> u32;

/// Relies on crc::crc32::checksum_ieee: the CRC-32 with the IEEE polynomial,
/// a function of the bytes alone.
#[verifier::external_body]
fn checksum_ieee(bytes: &[u8]) -> (r: u32)
    ensures
        r == crc32_ieee_of(bytes@),
{
    crc::crc32::checksum_ieee(bytes)
}

/// Text checksum of a pattern: CRC-32 of its UTF-8 bytes, modulo `0xFFFFFFFF`.
pub open spec fn text_checksum(t: Seq<char>) -> u32 {
    (crc32_ieee_of(encode_utf8(t)) % 0xFFFF_FFFFu32) as u32
}

/// The two running sums mod 255 of the sequence checksum.
pub open spec fn fletcher_sums(s: Seq<usize>) -> (int, int)
    decreases s.len(),
{
    if s.len() == 0 {
        (0, 0)
    } else {
        let p = fletcher_sums(s.drop_last());
        let a = (p.0 + s.last()) % 255;
        (a, (p.1 + a) % 255)
    }
}

/// Sequence checksum of a code sequence: `sum1 * 256 + sum2`.
pub open spec fn fletcher_of(s: Seq<usize>) -> u32 {
    (fletcher_sums(s).0 * 256 + fletcher_sums(s).1) as u32
}

/// CRC-32 of the text, modulo `0xFFFFFFFF`.
pub fn text_crc(text: &str) -> (r: u32)
    ensures
        r == text_checksum(text@),
{
    let c = checksum_ieee(text.as_bytes());
    c % 0xFFFF_FFFFu32
}

/// Fletcher-style checksum of a code sequence.
pub fn fletcher_codes(arr: &[usize]) -> (r: u32)
    ensures
        r == fletcher_of(arr@),
{
    let mut sum1: u32 = 0;
    let mut sum2: u32 = 0;
    let mut i: usize = 0;
    while i < arr.len()
        invariant
            i <= arr.len(),
            (sum1 as int, sum2 as int) == fletcher_sums(arr@.subrange(0, i as int)),
            sum1 < 255,
            sum2 < 255,
        decreases arr.len() - i,
    {
        let v = arr[i];
        proof {
            let s = arr@.subrange(0, i as int + 1);
            assert(s.drop_last() =~= arr@.subrange(0, i as int));
            assert((sum1 + v) % 255 == (sum1 + (v % 255)) % 255) by (nonlinear_arith);
        }
        sum1 = (sum1 + (v % 255) as u32) % 255;
        sum2 = (sum2 + sum1) % 255;
        i += 1;
    }
    proof {
        assert(arr@.subrange(0, arr@.len() as int) =~= arr@);
    }
    sum1 * 256 + sum2
}

} // verus!
