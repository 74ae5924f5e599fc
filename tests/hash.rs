use evs::external::sha256;
use evs::hash::{hex_bytes, hex_string, HashDisplay};
use evs::objects::TreeEntry;
use evs::order::{bytes_lt, sort_entries};

#[test]
fn hex_is_lowercase_and_padded() {
    assert_eq!(HashDisplay(&[0x00, 0xab, 0xff, 0x0f]).to_string(), "00abff0f");
    assert_eq!(hex_bytes(&[0x10]), b"10".to_vec());
    assert_eq!(hex_string(&[]), "");
}

#[test]
fn sha256_of_empty_input() {
    let h = sha256(&[]);
    assert_eq!(
        hex_string(&h),
        "e3b0c44298fc1c149afbf4c8996fb92427ae41e4649b934ca495991b7852b855"
    );
}

#[test]
fn sha256_of_abc() {
    assert_eq!(
        HashDisplay(&sha256(b"abc")).to_string(),
        "ba7816bf8f01cfea414140de5dae2223b00361a396177a9cb410ff61f20015ad"
    );
}

#[test]
fn byte_order_is_lexicographic() {
    assert!(bytes_lt(b"a", b"b"));
    assert!(bytes_lt(b"ab", b"abc"));
    assert!(!bytes_lt(b"abc", b"ab"));
    assert!(!bytes_lt(b"x", b"x"));
    assert!(bytes_lt(b"", b"\x00"));
    assert!(bytes_lt(&[0x7f], &[0x80]));
}

#[test]
fn entries_sort_by_name_then_content() {
    let es = vec![
        TreeEntry { name: b"c".to_vec(), content: [1; 32] },
        TreeEntry { name: b"a".to_vec(), content: [5; 32] },
        TreeEntry { name: b"b".to_vec(), content: [2; 32] },
        TreeEntry { name: b"a".to_vec(), content: [3; 32] },
    ];
    let sorted = sort_entries(es);
    let names: Vec<&[u8]> = sorted.iter().map(|e| e.name.as_slice()).collect();
    assert_eq!(names, vec![&b"a"[..], b"a", b"b", b"c"]);
    assert_eq!(sorted[0].content, [3; 32]);
    assert_eq!(sorted[1].content, [5; 32]);
}
