use cargo_wiiu::upload::{wiiload_message, wiiload_payload, WIILOAD_PORT};
use std::io::Read;

#[test]
fn zip_archives_are_sent_as_they_are() {
    let mut zip = b"PK\x03\x04".to_vec();
    zip.extend_from_slice(&[0u8; 100]);
    assert_eq!(wiiload_payload(zip.clone()), (zip, 0));
}

#[test]
fn compressible_data_is_compressed() {
    let data = vec![b'a'; 1000];
    let (payload, size) = wiiload_payload(data.clone());
    assert_eq!(size, 1000);
    assert!(payload.len() < 1000);
    let mut back = Vec::new();
    flate2::read::ZlibDecoder::new(&payload[..]).read_to_end(&mut back).unwrap();
    assert_eq!(back, data);
}

#[test]
fn incompressible_data_is_sent_as_it_is() {
    let data = vec![1, 2, 3];
    assert_eq!(wiiload_payload(data.clone()), (data, 3));
}

#[test]
fn message_layout() {
    let data = vec![9, 8, 7];
    let msg = wiiload_message(data);
    assert_eq!(msg, vec![b'H', b'A', b'X', b'X', 0, 5, 0, 0, 0, 0, 0, 3, 0, 0, 0, 3, 9, 8, 7]);
    assert_eq!(WIILOAD_PORT, 4299);
}

#[test]
fn zip_message_announces_size_zero() {
    let zip = b"PK\x03\x04rest".to_vec();
    let msg = wiiload_message(zip.clone());
    assert_eq!(&msg[8..12], &[0, 0, 0, 8]);
    assert_eq!(&msg[12..16], &[0, 0, 0, 0]);
    assert_eq!(&msg[16..], &zip[..]);
}
