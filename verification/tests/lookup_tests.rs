use cj_nbt::decode::decode_document;
use cj_nbt::tree::lookup;
use cj_nbt::value::TagValue;

fn sample_document_bytes() -> Vec<u8> {
    vec![
        0x0A, 0x00, 0x04, b'r', b'o', b'o', b't', // root compound titled "root"
        0x09, 0x00, 0x04, b'n', b'u', b'm', b's', 0x03, 0x00, 0x00, 0x00, 0x02, // List of 2 Ints
        0x00, 0x00, 0x00, 0x07, // 7
        0x00, 0x00, 0x00, 0x08, // 8
        0x08, 0x00, 0x01, b's', 0x00, 0x02, b'h', b'i', // String "s" = "hi"
        0x00,
    ]
}

fn segs(parts: &[&str]) -> Vec<String> {
    parts.iter().map(|p| p.to_string()).collect()
}

#[test]
fn empty_path_resolves_to_root() {
    let doc = decode_document(&sample_document_bytes()).unwrap();
    match lookup(&doc, &segs(&[])) {
        Some(TagValue::Compound(entries)) => assert_eq!(entries.len(), 2),
        _ => panic!("root lookup failed"),
    }
}

#[test]
fn name_and_index_segments_resolve() {
    let doc = decode_document(&sample_document_bytes()).unwrap();
    assert!(matches!(
        lookup(&doc, &segs(&["nums", "1"])),
        Some(TagValue::Int(8))
    ));
    assert!(matches!(
        lookup(&doc, &segs(&["nums", "0"])),
        Some(TagValue::Int(7))
    ));
    match lookup(&doc, &segs(&["s"])) {
        Some(TagValue::Str(s)) => assert_eq!(s, "hi"),
        _ => panic!("string lookup failed"),
    }
}

#[test]
fn missing_or_malformed_segments_resolve_to_nothing() {
    let doc = decode_document(&sample_document_bytes()).unwrap();
    assert!(lookup(&doc, &segs(&["absent"])).is_none());
    assert!(lookup(&doc, &segs(&["nums", "2"])).is_none());
    assert!(lookup(&doc, &segs(&["nums", "x"])).is_none());
    assert!(lookup(&doc, &segs(&["s", "deeper"])).is_none());
}
