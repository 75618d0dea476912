use cj_nbt::decode::{decode_document, decode_envelope, decode_value};
use cj_nbt::primitive::read_bare_string;
use cj_nbt::value::{DecodeError, TagValue};

#[test]
fn minimal_envelope_decodes_to_empty_document() {
    // Compound tag, zero-length title, immediate End.
    let bytes: Vec<u8> = vec![0x0A, 0x00, 0x00, 0x00];
    let doc = decode_document(&bytes).unwrap();
    assert_eq!(doc.title, "");
    match &doc.root {
        TagValue::Compound(entries) => assert_eq!(entries.len(), 0),
        _ => panic!("root is not a compound"),
    }
}

#[test]
fn empty_compound_with_title_decodes() {
    let bytes: Vec<u8> = vec![0x0A, 0x00, 0x03, b'a', b'b', b'c', 0x00];
    let doc = decode_document(&bytes).unwrap();
    assert_eq!(doc.title, "abc");
    match &doc.root {
        TagValue::Compound(entries) => assert_eq!(entries.len(), 0),
        _ => panic!("root is not a compound"),
    }
}

#[test]
fn bare_string_zero_length_consumes_only_prefix() {
    // Length prefix 0, then trailing bytes that must stay untouched.
    let bytes: Vec<u8> = vec![0x00, 0x00, 0xAA, 0xBB];
    let (s, end) = read_bare_string(&bytes, 0).unwrap();
    assert_eq!(s, "");
    assert_eq!(end, 2);
}

#[test]
fn bare_string_decodes_text() {
    let bytes: Vec<u8> = vec![0x00, 0x05, b'h', b'e', b'l', b'l', b'o'];
    let (s, end) = read_bare_string(&bytes, 0).unwrap();
    assert_eq!(s, "hello");
    assert_eq!(end, 7);
}

#[test]
fn bare_string_invalid_bytes_are_rejected() {
    let bytes: Vec<u8> = vec![0x00, 0x01, 0xFF];
    assert_eq!(
        read_bare_string(&bytes, 0).unwrap_err(),
        DecodeError::InvalidTextEncoding
    );
}

#[test]
fn root_byte_tag_is_no_root_compound() {
    // A Byte root tag with an empty title is rejected for its kind.
    let bytes: Vec<u8> = vec![0x01, 0x00, 0x00, 0x07];
    assert_eq!(
        decode_document(&bytes).unwrap_err(),
        DecodeError::NoRootCompound
    );
}

#[test]
fn immediate_end_byte_is_no_root_compound() {
    let bytes: Vec<u8> = vec![0x00];
    assert_eq!(
        decode_document(&bytes).unwrap_err(),
        DecodeError::NoRootCompound
    );
}

#[test]
fn truncated_title_is_truncated() {
    let bytes: Vec<u8> = vec![0x0A, 0x00];
    assert_eq!(decode_document(&bytes).unwrap_err(), DecodeError::Truncated);
}

#[test]
fn duplicate_compound_name_is_rejected() {
    let bytes: Vec<u8> = vec![
        0x0A, 0x00, 0x00, // root compound, empty title
        0x01, 0x00, 0x01, b'a', 0x05, // Byte "a" = 5
        0x01, 0x00, 0x01, b'a', 0x07, // Byte "a" = 7 again
        0x00,
    ];
    assert_eq!(
        decode_document(&bytes).unwrap_err(),
        DecodeError::DuplicateKey
    );
}

#[test]
fn negative_array_count_is_malformed_length() {
    let bytes: Vec<u8> = vec![
        0x0A, 0x00, 0x00, // root compound, empty title
        0x07, 0x00, 0x01, b'b', 0xFF, 0xFF, 0xFF, 0xFF, // ByteArray "b", count -1
        0x00,
    ];
    assert_eq!(
        decode_document(&bytes).unwrap_err(),
        DecodeError::MalformedLength
    );
}

#[test]
fn unknown_tag_id_is_rejected() {
    let bytes: Vec<u8> = vec![
        0x0A, 0x00, 0x00, // root compound, empty title
        0x0D, 0x00, 0x01, b'x', 0x00, // tag 13 does not exist
    ];
    assert_eq!(
        decode_document(&bytes).unwrap_err(),
        DecodeError::UnknownTagId
    );
}

#[test]
fn numeric_payloads_decode_big_endian() {
    let bytes: Vec<u8> = vec![
        0x0A, 0x00, 0x00, // root compound, empty title
        0x01, 0x00, 0x01, b'a', 0xFF, // Byte -1
        0x02, 0x00, 0x01, b'b', 0x01, 0x02, // Short 258
        0x03, 0x00, 0x01, b'c', 0xFF, 0xFF, 0xFF, 0xFE, // Int -2
        0x04, 0x00, 0x01, b'd', 0x00, 0x00, 0x00, 0x00, 0x00, 0x00, 0x01, 0x00, // Long 256
        0x05, 0x00, 0x01, b'e', 0x3F, 0x80, 0x00, 0x00, // Float 1.0 bits
        0x06, 0x00, 0x01, b'f', 0x3F, 0xF0, 0x00, 0x00, 0x00, 0x00, 0x00, 0x00, // Double 1.0 bits
        0x00,
    ];
    let doc = decode_document(&bytes).unwrap();
    let entries = match &doc.root {
        TagValue::Compound(entries) => entries,
        _ => panic!("root is not a compound"),
    };
    assert_eq!(entries.len(), 6);
    assert_eq!(entries[0].0, "a");
    assert!(matches!(entries[0].1, TagValue::Byte(-1)));
    assert!(matches!(entries[1].1, TagValue::Short(258)));
    assert!(matches!(entries[2].1, TagValue::Int(-2)));
    assert!(matches!(entries[3].1, TagValue::Long(256)));
    assert!(matches!(entries[4].1, TagValue::Float(0x3F80_0000)));
    assert!(matches!(entries[5].1, TagValue::Double(0x3FF0_0000_0000_0000)));
}

#[test]
fn arrays_and_strings_decode() {
    let bytes: Vec<u8> = vec![
        0x0A, 0x00, 0x00, // root compound, empty title
        0x07, 0x00, 0x01, b'a', 0x00, 0x00, 0x00, 0x02, 0x01, 0xFF, // ByteArray [1, -1]
        0x08, 0x00, 0x01, b's', 0x00, 0x02, b'h', b'i', // String "hi"
        0x0B, 0x00, 0x01, b'i', 0x00, 0x00, 0x00, 0x01, 0x00, 0x01, 0x11, 0x70, // IntArray [70000]
        0x0C, 0x00, 0x01, b'l', 0x00, 0x00, 0x00, 0x01, 0xFF, 0xFF, 0xFF, 0xFF, 0xFF, 0xFF,
        0xFF, 0xFF, // LongArray [-1]
        0x00,
    ];
    let doc = decode_document(&bytes).unwrap();
    let entries = match &doc.root {
        TagValue::Compound(entries) => entries,
        _ => panic!("root is not a compound"),
    };
    match &entries[0].1 {
        TagValue::ByteArray(xs) => assert_eq!(xs, &vec![1i8, -1i8]),
        _ => panic!("not a byte array"),
    }
    match &entries[1].1 {
        TagValue::Str(s) => assert_eq!(s, "hi"),
        _ => panic!("not a string"),
    }
    match &entries[2].1 {
        TagValue::IntArray(xs) => assert_eq!(xs, &vec![70000i32]),
        _ => panic!("not an int array"),
    }
    match &entries[3].1 {
        TagValue::LongArray(xs) => assert_eq!(xs, &vec![-1i64]),
        _ => panic!("not a long array"),
    }
}

#[test]
fn homogeneous_list_decodes_in_order() {
    let bytes: Vec<u8> = vec![
        0x0A, 0x00, 0x00, // root compound, empty title
        0x09, 0x00, 0x01, b'n', 0x03, 0x00, 0x00, 0x00, 0x02, // List "n" of 2 Ints
        0x00, 0x00, 0x00, 0x07, // 7
        0x00, 0x00, 0x00, 0x08, // 8
        0x00,
    ];
    let doc = decode_document(&bytes).unwrap();
    let entries = match &doc.root {
        TagValue::Compound(entries) => entries,
        _ => panic!("root is not a compound"),
    };
    match &entries[0].1 {
        TagValue::List(kind, elems) => {
            assert_eq!(*kind, 3);
            assert_eq!(elems.len(), 2);
            assert!(matches!(elems[0], TagValue::Int(7)));
            assert!(matches!(elems[1], TagValue::Int(8)));
        }
        _ => panic!("not a list"),
    }
}

#[test]
fn empty_list_keeps_declared_kind_and_consumes_no_elements() {
    // List payload alone: element kind Int, count 0, then unrelated bytes.
    let bytes: Vec<u8> = vec![0x03, 0x00, 0x00, 0x00, 0x00, 0xAA, 0xBB];
    let (v, end) = decode_value(&bytes, 0, 9).unwrap();
    assert_eq!(end, 5);
    match v {
        TagValue::List(kind, elems) => {
            assert_eq!(kind, 3);
            assert_eq!(elems.len(), 0);
        }
        _ => panic!("not a list"),
    }
}

#[test]
fn list_with_string_bytes_under_int_kind_fails() {
    // The second "Int" element is really an encoded string; reading its
    // bytes as fixed-width payloads must end in an error, never in silent
    // success.
    let bytes: Vec<u8> = vec![
        0x0A, 0x00, 0x00, // root compound, empty title
        0x09, 0x00, 0x01, b'n', 0x03, 0x00, 0x00, 0x00, 0x02, // List "n" of 2 Ints
        0x00, 0x00, 0x00, 0x07, // a real Int
        0x00, 0x02, b'h', b'i', // bytes of a String where an Int belongs
        0xFF,
    ];
    assert!(decode_document(&bytes).is_err());
}

#[test]
fn trailing_bytes_after_root_are_ignored() {
    let bytes: Vec<u8> = vec![0x0A, 0x00, 0x00, 0x00, 0x42, 0x42];
    let doc = decode_document(&bytes).unwrap();
    assert_eq!(doc.title, "");
}

#[test]
fn decode_is_fail_fast_on_truncated_payload() {
    let bytes: Vec<u8> = vec![
        0x0A, 0x00, 0x00, // root compound, empty title
        0x03, 0x00, 0x01, b'c', 0xFF, 0xFF, // Int with only 2 payload bytes
    ];
    assert_eq!(decode_document(&bytes).unwrap_err(), DecodeError::Truncated);
}

#[test]
fn envelope_and_document_agree_on_raw_bytes() {
    // Bytes that are not gzip: the fallback outcome is the raw outcome.
    let bytes: Vec<u8> = vec![0x01, 0x00, 0x00, 0x07];
    assert_eq!(
        decode_document(&bytes).unwrap_err(),
        decode_envelope(&bytes).unwrap_err()
    );
}
