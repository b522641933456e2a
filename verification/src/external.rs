//! The calls this library makes into `flate2` and into parts of std that
//! Verus has no specification for.
use std::io::Write;
use vstd::prelude::*;
use vstd::utf8::valid_utf8;

verus! {

/// One bit of the reflected CRC-32 register, with the IEEE polynomial.
pub open spec fn crc32_shift(c: u32) -> u32 {
    if c & 1 == 1 {
        (c >> 1u32) ^ 0xEDB8_8320u32
    } else {
        c >> 1u32
    }
}

/// `n` bits of the CRC-32 register.
pub open spec fn crc32_shifts(c: u32, n: nat) -> u32
    decreases n,
{
    if n == 0 {
        c
    } else {
        crc32_shifts(crc32_shift(c), (n - 1) as nat)
    }
}

/// The CRC-32 register after `data`, from the all-ones start.
pub open spec fn crc32_register(data: Seq<u8>) -> u32
    decreases data.len(),
{
    if data.len() == 0 {
        0xFFFF_FFFFu32
    } else {
        crc32_shifts(crc32_register(data.drop_last()) ^ (data.last() as u32), 8)
    }
}

/// The CRC-32 (IEEE) checksum of `data`: the register, inverted.
pub open spec fn crc32_of(data: Seq<u8>) -> u32 {
    crc32_register(data) ^ 0xFFFF_FFFFu32
}

/// The zlib stream that `flate2::write::ZlibEncoder` produces for `data` at
/// compression level `level`.
pub uninterp spec fn zlib_of(data: Seq<u8>, level: u32) -> Seq<u8>;

/// Checksums `data` with a fresh `flate2::Crc` (`new`, one `update`, `sum`),
/// which `crc32fast::Hasher` computes: the CRC-32 (IEEE) checksum of the
/// bytes, as `crc32_of` states it.
#[verifier::external_body]
pub(crate) fn crc32(data: &[u8]) -> (r: u32)
    ensures
        r == crc32_of(data@),
{
    let mut hasher = flate2::Crc::new();
    hasher.update(data);
    hasher.sum()
}

/// Compresses `data` into a zlib stream with `flate2::write::ZlibEncoder` over
/// a `Vec<u8>` at `flate2::Compression::new(level)`. Writing into a vector
/// does not fail, so the encoder's `write_all` and `finish` are unwrapped.
/// The contract only names the stream: it is a function of the bytes and the
/// level alone; its content is not stated here.
#[verifier::external_body]
pub(crate) fn zlib_compress(data: &[u8], level: u32) -> (r: Vec<u8>)
    requires
        level <= 9,
    ensures
        r@ == zlib_of(data@, level),
{
    let mut encoder = flate2::write::ZlibEncoder::new(Vec::new(), flate2::Compression::new(level));
    encoder.write_all(data).unwrap();
    encoder.finish().unwrap()
}

/// Whether `std::str::from_utf8` accepts `bytes`; it does exactly for
/// well-formed UTF-8, which vstd's `valid_utf8` states.
#[verifier::external_body]
pub(crate) fn utf8_valid(bytes: &[u8]) -> (r: bool)
    ensures
        r == valid_utf8(bytes@),
{
    std::str::from_utf8(bytes).is_ok()
}

} // verus!
