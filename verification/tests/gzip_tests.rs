use cj_nbt::decode::{decode_document, decode_envelope};
use cj_nbt::value::TagValue;
use std::io::Write;

fn gzip(bytes: &[u8]) -> Vec<u8> {
    let mut enc = flate2::write::GzEncoder::new(Vec::new(), flate2::Compression::default());
    enc.write_all(bytes).unwrap();
    enc.finish().unwrap()
}

#[test]
fn gzip_wrapped_envelope_decodes_to_same_document() {
    let raw: Vec<u8> = vec![0x0A, 0x00, 0x00, 0x00];
    let wrapped = gzip(&raw);
    assert_ne!(wrapped, raw);
    let doc = decode_document(&wrapped).unwrap();
    assert_eq!(doc.title, "");
    match &doc.root {
        TagValue::Compound(entries) => assert_eq!(entries.len(), 0),
        _ => panic!("root is not a compound"),
    }
}

#[test]
fn gzip_wrapped_rich_envelope_decodes() {
    let raw: Vec<u8> = vec![
        0x0A, 0x00, 0x04, b'r', b'o', b'o', b't', // root compound titled "root"
        0x01, 0x00, 0x01, b'a', 0x2A, // Byte "a" = 42
        0x00,
    ];
    let doc = decode_document(&gzip(&raw)).unwrap();
    assert_eq!(doc.title, "root");
    match &doc.root {
        TagValue::Compound(entries) => {
            assert_eq!(entries.len(), 1);
            assert_eq!(entries[0].0, "a");
            assert!(matches!(entries[0].1, TagValue::Byte(42)));
        }
        _ => panic!("root is not a compound"),
    }
}

#[test]
fn corrupted_gzip_header_falls_back_to_raw_and_surfaces_raw_error() {
    let raw: Vec<u8> = vec![0x0A, 0x00, 0x00, 0x00];
    let mut wrapped = gzip(&raw);
    wrapped[0] ^= 0xFF; // break the gzip magic
    let got = decode_document(&wrapped).unwrap_err();
    let raw_attempt = decode_envelope(&wrapped).unwrap_err();
    assert_eq!(got, raw_attempt);
}
