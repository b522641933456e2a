//! The wiiload upload format: what is sent to the loader on the console.
use vstd::prelude::*;
use crate::bytes::{be32, get32, has_prefix, lemma_be32_roundtrip, lemma_get32_of, push_be32, push_bytes, starts_with};
use crate::external::{zlib_compress, zlib_of};

verus! {

/// The TCP port the loader on the console listens on.
pub const WIILOAD_PORT: u16 = 4299;

/// The zlib level uploads are compressed with.
pub const UPLOAD_LEVEL: u32 = 6;

/// The major protocol version, sent after the magic.
pub const WIILOAD_VERSION_MAJOR: u8 = 0;

/// The minor protocol version, sent after the major one.
pub const WIILOAD_VERSION_MINOR: u8 = 5;

/// The first bytes of a zip archive, `PK\x03\x04`; such uploads are sent as
/// they are.
pub open spec fn zip_magic() -> Seq<u8> {
    seq![0x50u8, 0x4Bu8, 0x03u8, 0x04u8]
}

/// The magic that opens an upload, `HAXX`.
pub open spec fn haxx() -> Seq<u8> {
    seq![0x48u8, 0x41u8, 0x58u8, 0x58u8]
}

/// The bytes sent for `data` and the size announced for them: a zip
/// archive as it is with size zero; anything else zlib-compressed where that
/// is shorter, else as it is, with its own length (in 32 bits) as size.
pub open spec fn spec_payload(data: Seq<u8>) -> (Seq<u8>, u32) {
    if starts_with(data, zip_magic()) {
        (data, 0u32)
    } else {
        let compressed = zlib_of(data, UPLOAD_LEVEL);
        if compressed.len() < data.len() {
            (compressed, data.len() as u32)
        } else {
            (data, data.len() as u32)
        }
    }
}

/// Everything sent to the loader for `data`: the magic, the version, two
/// zero bytes of argument length, the payload's length and the announced
/// size (both big-endian, 32 bits), then the payload.
pub open spec fn spec_message(data: Seq<u8>) -> Seq<u8> {
    let (payload, size) = spec_payload(data);
    haxx() + seq![0u8, 5u8, 0u8, 0u8] + be32(payload.len() as u32) + be32(size) + payload
}

/// The payload to send for `data` and the size to announce for it.
pub fn wiiload_payload(data: Vec<u8>) -> (r: (Vec<u8>, u32))
    ensures
        (r.0@, r.1) == spec_payload(data@),
{
    let magic: [u8; 4] = [0x50u8, 0x4Bu8, 0x03u8, 0x04u8];
    assert(magic@ =~= zip_magic());
    if has_prefix(data.as_slice(), &magic) {
        (data, 0)
    } else {
        let compressed = zlib_compress(data.as_slice(), UPLOAD_LEVEL);
        let size = data.len() as u32;
        if compressed.len() < data.len() {
            (compressed, size)
        } else {
            (data, size)
        }
    }
}

/// Everything to send to the loader for `data`, in order.
pub fn wiiload_message(data: Vec<u8>) -> (r: Vec<u8>)
    ensures
        r@ == spec_message(data@),
{
    let (payload, size) = wiiload_payload(data);
    let mut out: Vec<u8> = Vec::new();
    let head: [u8; 8] = [0x48u8, 0x41u8, 0x58u8, 0x58u8, WIILOAD_VERSION_MAJOR, WIILOAD_VERSION_MINOR, 0u8, 0u8];
    assert(head@ =~= haxx() + seq![0u8, 5u8, 0u8, 0u8]);
    push_bytes(&mut out, &head);
    push_be32(&mut out, payload.len() as u32);
    push_be32(&mut out, size);
    push_bytes(&mut out, payload.as_slice());
    out
}

/// What is sent is never longer than the data: compressed data is sent only
/// where it is shorter.
pub proof fn law_payload_not_longer(data: Seq<u8>)
    ensures
        spec_payload(data).0.len() <= data.len(),
        !starts_with(data, zip_magic()) ==> spec_payload(data).1 == data.len() as u32,
{
}

/// A loader reads back from the message what was framed: the magic, the
/// version, the payload's length and the announced size at their places, and
/// the payload itself after the sixteen bytes of framing.
pub proof fn law_message_frames_payload(data: Seq<u8>)
    requires
        spec_payload(data).0.len() <= u32::MAX,
    ensures
        spec_message(data).subrange(0, 4) == haxx(),
        spec_message(data)[4] == WIILOAD_VERSION_MAJOR,
        spec_message(data)[5] == WIILOAD_VERSION_MINOR,
        get32(spec_message(data), 8) == spec_payload(data).0.len(),
        get32(spec_message(data), 12) == spec_payload(data).1,
        spec_message(data).subrange(16, spec_message(data).len() as int) == spec_payload(data).0,
{
    let (payload, size) = spec_payload(data);
    let m = spec_message(data);
    lemma_be32_roundtrip(payload.len() as u32);
    lemma_be32_roundtrip(size);
    assert(m.subrange(0, 4) =~= haxx());
    assert(m.subrange(8, 12) =~= be32(payload.len() as u32));
    assert(m.subrange(12, 16) =~= be32(size));
    lemma_get32_of(m, 8, payload.len() as u32);
    lemma_get32_of(m, 12, size);
    assert(m.subrange(16, m.len() as int) =~= payload);
}

} // verus!
