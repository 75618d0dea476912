use cj_nbt::decode::decode_document;
use cj_nbt::encode::encode_document;
use cj_nbt::value::{Document, TagValue};

fn compound(entries: Vec<(&str, TagValue)>) -> TagValue {
    TagValue::Compound(
        entries
            .into_iter()
            .map(|(name, value)| (name.to_string(), value))
            .collect(),
    )
}

fn assert_roundtrips(doc: Document) {
    let bytes = encode_document(&doc).expect("document should be encodable");
    let back = decode_document(&bytes).expect("encoded bytes should decode");
    assert_eq!(back.title, doc.title);
    assert_eq!(format!("{:?}", back.root), format!("{:?}", doc.root));
}

#[test]
fn empty_document_roundtrips() {
    assert_roundtrips(Document {
        title: String::new(),
        root: compound(vec![]),
    });
}

#[test]
fn scalar_document_roundtrips() {
    assert_roundtrips(Document {
        title: "scalars".to_string(),
        root: compound(vec![
            ("a", TagValue::Byte(-7)),
            ("b", TagValue::Short(-32768)),
            ("c", TagValue::Int(123456789)),
            ("d", TagValue::Long(-9876543210)),
            ("e", TagValue::Float(0x3F80_0000)),
            ("f", TagValue::Double(0x4000_0000_0000_0000)),
            ("g", TagValue::Str("héllo".to_string())),
        ]),
    });
}

#[test]
fn nested_document_roundtrips() {
    let inner = compound(vec![
        ("bytes", TagValue::ByteArray(vec![-1, 0, 1])),
        ("ints", TagValue::IntArray(vec![i32::MIN, 0, i32::MAX])),
        ("longs", TagValue::LongArray(vec![i64::MIN, i64::MAX])),
    ]);
    let list = TagValue::List(3, vec![TagValue::Int(1), TagValue::Int(2)]);
    assert_roundtrips(Document {
        title: "nested".to_string(),
        root: compound(vec![("inner", inner), ("list", list)]),
    });
}

#[test]
fn empty_list_of_end_kind_roundtrips() {
    assert_roundtrips(Document {
        title: "t".to_string(),
        root: compound(vec![("empty", TagValue::List(0, vec![]))]),
    });
}

#[test]
fn duplicate_names_are_not_encodable() {
    let doc = Document {
        title: "t".to_string(),
        root: compound(vec![("a", TagValue::Byte(1)), ("a", TagValue::Byte(2))]),
    };
    assert!(encode_document(&doc).is_none());
}

#[test]
fn heterogeneous_list_is_not_encodable() {
    let doc = Document {
        title: "t".to_string(),
        root: compound(vec![(
            "l",
            TagValue::List(3, vec![TagValue::Int(1), TagValue::Byte(2)]),
        )]),
    };
    assert!(encode_document(&doc).is_none());
}

#[test]
fn end_entry_is_not_encodable() {
    let doc = Document {
        title: "t".to_string(),
        root: compound(vec![("e", TagValue::End)]),
    };
    assert!(encode_document(&doc).is_none());
}

#[test]
fn non_compound_root_is_not_encodable() {
    let doc = Document {
        title: "t".to_string(),
        root: TagValue::Int(5),
    };
    assert!(encode_document(&doc).is_none());
}

#[test]
fn encoded_bytes_match_wire_format_exactly() {
    let doc = Document {
        title: "hi".to_string(),
        root: compound(vec![("n", TagValue::Short(258))]),
    };
    let bytes = encode_document(&doc).unwrap();
    assert_eq!(
        bytes,
        vec![
            0x0A, 0x00, 0x02, b'h', b'i', // compound, title "hi"
            0x02, 0x00, 0x01, b'n', 0x01, 0x02, // Short "n" = 258
            0x00,
        ]
    );
}
