use cj_nbt::decode::decode_document;
use cj_nbt::tree::{dec_u64, materialize_tree, TreeNodeRecord};

fn sample_document_bytes() -> Vec<u8> {
    vec![
        0x0A, 0x00, 0x04, b'r', b'o', b'o', b't', // root compound titled "root"
        0x09, 0x00, 0x04, b'n', b'u', b'm', b's', 0x03, 0x00, 0x00, 0x00, 0x02, // List of 2 Ints
        0x00, 0x00, 0x00, 0x07, // 7
        0x00, 0x00, 0x00, 0x08, // 8
        0x08, 0x00, 0x01, b's', 0x00, 0x02, b'h', b'i', // String "s" = "hi"
        0x00,
    ]
}

fn assert_row(row: &TreeNodeRecord, path: &str, label: &str, expandable: bool) {
    assert_eq!(row.path, path);
    assert_eq!(row.label, label);
    assert_eq!(row.expandable, expandable);
}

#[test]
fn materialize_walks_preorder_with_paths_and_labels() {
    let doc = decode_document(&sample_document_bytes()).unwrap();
    let rows = materialize_tree(&doc);
    assert_eq!(rows.len(), 5);
    assert_row(&rows[0], "root", "root (2 entries)", true);
    assert_row(&rows[1], "root/nums", "nums (2 entries)", true);
    assert_row(&rows[2], "root/nums/0", "0 (Int)", false);
    assert_row(&rows[3], "root/nums/1", "1 (Int)", false);
    assert_row(&rows[4], "root/s", "s (String)", false);
}

#[test]
fn materialize_twice_gives_identical_rows() {
    let doc = decode_document(&sample_document_bytes()).unwrap();
    let a = materialize_tree(&doc);
    let b = materialize_tree(&doc);
    assert_eq!(a.len(), b.len());
    for i in 0..a.len() {
        assert_eq!(a[i].path, b[i].path);
        assert_eq!(a[i].label, b[i].label);
        assert_eq!(a[i].expandable, b[i].expandable);
    }
}

#[test]
fn arrays_are_leaves() {
    let bytes: Vec<u8> = vec![
        0x0A, 0x00, 0x01, b't', // root compound titled "t"
        0x07, 0x00, 0x01, b'a', 0x00, 0x00, 0x00, 0x02, 0x01, 0x02, // ByteArray [1, 2]
        0x00,
    ];
    let doc = decode_document(&bytes).unwrap();
    let rows = materialize_tree(&doc);
    assert_eq!(rows.len(), 2);
    assert_row(&rows[1], "t/a", "a (Byte Array)", false);
}

#[test]
fn empty_compound_root_is_not_expandable() {
    let doc = decode_document(&vec![0x0A, 0x00, 0x00, 0x00]).unwrap();
    let rows = materialize_tree(&doc);
    assert_eq!(rows.len(), 1);
    assert_row(&rows[0], "", " (0 entries)", false);
}

#[test]
fn decimal_writing_is_exact() {
    assert_eq!(dec_u64(0), "0");
    assert_eq!(dec_u64(9), "9");
    assert_eq!(dec_u64(10), "10");
    assert_eq!(dec_u64(1234567890), "1234567890");
    assert_eq!(dec_u64(u64::MAX), "18446744073709551615");
}
