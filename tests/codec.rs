use evs::codec::{decode_object, encode_object};
use evs::objects::{Commit, Object, Timestamp, TreeEntry};

fn sample_commit() -> Commit {
    Commit {
        parent: [7u8; 32],
        name: "Zoë".to_string(),
        email: "z@example.org".to_string(),
        tree: [9u8; 32],
        msg: "first line\nsecond ✓".to_string(),
        date: Timestamp { secs: 1_700_000_000, nanos: 123_456_789 },
    }
}

#[test]
fn null_encoding_is_fixed() {
    assert_eq!(encode_object(&Object::Null), vec![0x91, 0x00]);
}

#[test]
fn blob_encoding_layout() {
    let enc = encode_object(&Object::Blob(b"hi".to_vec()));
    assert_eq!(enc, vec![0x92, 0x01, 0xc6, 0, 0, 0, 2, b'h', b'i']);
}

#[test]
fn tree_encoding_keeps_entry_order() {
    let t = Object::Tree(vec![
        TreeEntry { name: b"b".to_vec(), content: [2u8; 32] },
        TreeEntry { name: b"a".to_vec(), content: [1u8; 32] },
    ]);
    let enc = encode_object(&t);
    assert_eq!(&enc[..7], &[0x92, 0x02, 0xdd, 0, 0, 0, 2]);
    assert_eq!(&enc[7..14], &[0x92, 0xc6, 0, 0, 0, 1, b'b']);
    assert_eq!(enc.len(), 7 + 2 * (1 + 6 + 5 + 32));
}

#[test]
fn commit_round_trip() {
    let c = Object::Commit(sample_commit());
    let enc = encode_object(&c);
    assert_eq!(decode_object(&enc), Some(c));
}

#[test]
fn tree_round_trip() {
    let t = Object::Tree(vec![
        TreeEntry { name: b"x".to_vec(), content: [4u8; 32] },
        TreeEntry { name: vec![0xff, 0x00], content: [3u8; 32] },
    ]);
    assert_eq!(decode_object(&encode_object(&t)), Some(t));
}

#[test]
fn decode_rejects_unsorted_or_repeated_names() {
    let unsorted = Object::Tree(vec![
        TreeEntry { name: b"b".to_vec(), content: [1u8; 32] },
        TreeEntry { name: b"a".to_vec(), content: [2u8; 32] },
    ]);
    assert_eq!(decode_object(&encode_object(&unsorted)), None);
    let repeated = Object::Tree(vec![
        TreeEntry { name: b"a".to_vec(), content: [1u8; 32] },
        TreeEntry { name: b"a".to_vec(), content: [2u8; 32] },
    ]);
    assert_eq!(decode_object(&encode_object(&repeated)), None);
}

#[test]
fn decode_rejects_trailing_bytes() {
    let mut enc = encode_object(&Object::Blob(b"abc".to_vec()));
    enc.push(0);
    assert_eq!(decode_object(&enc), None);
}

#[test]
fn decode_rejects_invalid_utf8() {
    let mut enc = encode_object(&Object::Commit(sample_commit()));
    // the first byte of the author's name
    let at = 2 + 5 + 32 + 5;
    enc[at] = 0xff;
    assert_eq!(decode_object(&enc), None);
}

#[test]
fn decode_rejects_short_hash() {
    let mut enc = vec![0x92, 0x02, 0xdd, 0, 0, 0, 1, 0x92, 0xc6, 0, 0, 0, 1, b'a', 0xc6, 0, 0, 0, 31];
    enc.extend_from_slice(&[0u8; 31]);
    assert_eq!(decode_object(&enc), None);
}

#[test]
fn decode_rejects_empty_and_unknown() {
    assert_eq!(decode_object(&[]), None);
    assert_eq!(decode_object(&[0x91, 0x05]), None);
}
