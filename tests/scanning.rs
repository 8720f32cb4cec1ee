use forest_cid::{Cid, Code};
use ipld_proofs::cbor::read_header;
use ipld_proofs::link_scanner::contains_link;
use ipld_proofs::LinkScanner;
use std::collections::BTreeMap;

fn cid_of(value: &str) -> Cid {
    forest_cid::new_from_cbor(&forest_encoding::to_vec(&value).unwrap(), Code::Blake2b256)
}

fn all_links(bytes: &[u8]) -> Vec<Vec<u8>> {
    let mut scanner = LinkScanner::new(bytes);
    let mut out = Vec::new();
    while let Some(c) = scanner.next() {
        out.push(c);
    }
    out
}

#[test]
fn scanner_yields_links_in_document_order() {
    let a = cid_of("a");
    let b = cid_of("b");
    let mut map = BTreeMap::new();
    map.insert("x".to_string(), b);
    let bytes = forest_encoding::to_vec(&(a, 3u8, "text", map, vec![1u64, 1000, 100000])).unwrap();
    assert_eq!(all_links(&bytes), vec![a.to_bytes(), b.to_bytes()]);
}

#[test]
fn scanner_without_links() {
    let bytes = forest_encoding::to_vec(&(1u8, "two", vec![3u8])).unwrap();
    assert!(all_links(&bytes).is_empty());
    assert!(all_links(&[]).is_empty());
}

#[test]
fn scanner_stops_after_top_item() {
    let a = cid_of("a");
    let mut bytes = forest_encoding::to_vec(&5u8).unwrap();
    bytes.extend(forest_encoding::to_vec(&a).unwrap());
    assert!(all_links(&bytes).is_empty());
}

#[test]
fn scanner_stops_on_non_canonical_header() {
    let a = cid_of("a");
    // array of two written with a one-byte length (non-canonical), then two links
    let mut bytes = vec![0x98, 0x02];
    bytes.extend(forest_encoding::to_vec(&a).unwrap());
    bytes.extend(forest_encoding::to_vec(&a).unwrap());
    assert!(all_links(&bytes).is_empty());
}

#[test]
fn scanner_keeps_links_before_malformed_tail() {
    let a = cid_of("a");
    let mut bytes = vec![0x83];
    bytes.extend(forest_encoding::to_vec(&a).unwrap());
    bytes.push(0x1c); // reserved additional information
    assert_eq!(all_links(&bytes), vec![a.to_bytes()]);
}

#[test]
fn scanner_skips_other_tags() {
    let a = cid_of("a");
    let mut bytes = vec![0x82, 0xc1, 0x1a, 0x00, 0x01, 0x00, 0x00];
    bytes.extend(forest_encoding::to_vec(&a).unwrap());
    assert_eq!(all_links(&bytes), vec![a.to_bytes()]);
}

#[test]
fn scanner_rejects_oversized_link() {
    // tag 42 around a 101-byte string
    let mut bytes = vec![0xd8, 0x2a, 0x58, 101];
    bytes.extend(vec![0u8; 101]);
    assert!(all_links(&bytes).is_empty());
}

#[test]
fn contains_link_finds_target() {
    let a = cid_of("a");
    let b = cid_of("b");
    let bytes = forest_encoding::to_vec(&[a]).unwrap();
    assert!(contains_link(&bytes, &a.to_bytes()));
    assert!(!contains_link(&bytes, &b.to_bytes()));
}

#[test]
fn headers_are_read_canonically() {
    assert_eq!(read_header(&[0x17], 0), Some((0, 23, 1)));
    assert_eq!(read_header(&[0x18, 24], 0), Some((0, 24, 2)));
    assert_eq!(read_header(&[0x18, 23], 0), None);
    assert_eq!(read_header(&[0x59, 0x01, 0x00], 0), Some((2, 256, 3)));
    assert_eq!(read_header(&[0x59, 0x00, 0xff], 0), None);
    assert_eq!(read_header(&[0x9a, 0x00, 0x01, 0x00, 0x00], 0), Some((4, 65536, 5)));
    assert_eq!(read_header(&[0x1b, 0, 0, 0, 1, 0, 0, 0, 0], 0), Some((0, 1 << 32, 9)));
    assert_eq!(read_header(&[0x1b, 0, 0, 0, 0, 0xff, 0xff, 0xff, 0xff], 0), None);
    assert_eq!(read_header(&[0x19, 0x01], 0), None);
    assert_eq!(read_header(&[0x1f], 0), None);
    assert_eq!(read_header(&[0x00], 1), None);
}
