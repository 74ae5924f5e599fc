use evs::codec::encode_object;
use evs::error::{CorruptState, EvsError};
use evs::hash::HashDisplay;
use evs::objects::{Object, TreeEntry};
use evs::store::{Store, StoreFile};
use sha2::Digest;
use std::io::Write;

fn hex(h: &evs::hash::Hash) -> String {
    HashDisplay(h).to_string()
}

fn gz(data: &[u8]) -> Vec<u8> {
    let mut e = flate2::write::GzEncoder::new(Vec::new(), flate2::Compression::default());
    e.write_all(data).unwrap();
    e.finish().unwrap()
}

#[test]
fn insert_then_lookup_returns_object_and_hash() {
    let mut s = Store::new(vec![]);
    let obj = Object::Blob(b"some bytes".to_vec());
    let h = s.insert(obj.clone());
    let expected: [u8; 32] = sha2::Sha256::digest(encode_object(&obj)).into();
    assert_eq!(h, expected);
    assert_eq!(s.files.len(), 1);
    assert_eq!(s.files[0].name, hex(&h).into_bytes());
    assert!(s.files[0].fresh);
    let (h2, back) = s.lookup(&hex(&h)).unwrap();
    assert_eq!(h2, h);
    assert_eq!(back, obj);
}

#[test]
fn stored_file_is_gzip_of_encoding() {
    let mut s = Store::new(vec![]);
    let obj = Object::Blob(b"zip me".to_vec());
    s.insert(obj.clone());
    assert_ne!(s.files[0].data, encode_object(&obj));
    let mut d = flate2::read::GzDecoder::new(s.files[0].data.as_slice());
    let mut out = Vec::new();
    std::io::Read::read_to_end(&mut d, &mut out).unwrap();
    assert_eq!(out, encode_object(&obj));
}

#[test]
fn inserting_twice_writes_once() {
    let mut s = Store::new(vec![]);
    let a = s.insert(Object::Null);
    let b = s.insert(Object::Null);
    assert_eq!(a, b);
    assert_eq!(s.files.len(), 1);
}

#[test]
fn tree_hash_ignores_entry_order() {
    let e1 = TreeEntry { name: b"one".to_vec(), content: [1; 32] };
    let e2 = TreeEntry { name: b"two".to_vec(), content: [2; 32] };
    let e3 = TreeEntry { name: b"three".to_vec(), content: [3; 32] };
    let mut s = Store::new(vec![]);
    let a = s.insert(Object::Tree(vec![e1.clone(), e2.clone(), e3.clone()]));
    let b = s.insert(Object::Tree(vec![e3.clone(), e1.clone(), e2.clone()]));
    assert_eq!(a, b);
    let (_, t) = s.lookup(&hex(&a)).unwrap();
    assert_eq!(t, Object::Tree(vec![e1, e3, e2]));
}

#[test]
fn unique_prefix_resolves() {
    let mut s = Store::new(vec![]);
    let a = s.insert(Object::Blob(b"alpha".to_vec()));
    let b = s.insert(Object::Blob(b"beta".to_vec()));
    let ha = hex(&a);
    let hb = hex(&b);
    let mut n = 1;
    while hb.starts_with(&ha[..n]) {
        n += 1;
    }
    let (h, _) = s.lookup(&ha[..n]).unwrap();
    assert_eq!(h, a);
    assert_eq!(s.resolve_rest(ha[..n].to_string()).unwrap(), ha);
    assert_eq!(s.resolve_rest(ha.clone()).unwrap(), ha);
}

#[test]
fn shared_prefix_is_ambiguous() {
    let mut s = Store::new(vec![]);
    let mut found: Vec<evs::hash::Hash> = Vec::new();
    let mut i: u64 = 0;
    while found.len() < 2 {
        let h = s.insert(Object::Blob(i.to_string().into_bytes()));
        if hex(&h).starts_with("ab") {
            found.push(h);
        }
        i += 1;
    }
    match s.lookup("ab") {
        Err(EvsError::AmbiguousObject(p, example)) => {
            assert_eq!(p, "ab");
            assert!(example.starts_with(b"ab"));
        },
        other => panic!("expected ambiguity, got {:?}", other.map(|x| x.0)),
    }
    assert!(matches!(s.resolve_rest("ab".to_string()), Err(EvsError::AmbiguousObject(_, _))));
    let one = hex(&found[0]);
    assert_eq!(s.lookup(&one).unwrap().0, found[0]);
}

#[test]
fn missing_and_overlong_ids_are_not_in_store() {
    let mut s = Store::new(vec![]);
    s.insert(Object::Null);
    let absent = "0".repeat(64);
    assert!(matches!(s.lookup(&absent), Err(EvsError::ObjectNotInStore(ref x)) if *x == absent));
    let long = "a".repeat(65);
    assert!(matches!(s.lookup(&long), Err(EvsError::ObjectNotInStore(_))));
    assert!(matches!(s.lookup("zz"), Err(EvsError::ObjectNotInStore(_))));
}

#[test]
fn flipped_bit_is_detected() {
    let mut s = Store::new(vec![]);
    let h = s.insert(Object::Blob(b"precious data that must not change".to_vec()));
    let n = s.files[0].data.len();
    s.files[0].data[n - 6] ^= 0x01;
    let r = s.lookup(&hex(&h));
    assert!(matches!(
        r,
        Err(EvsError::CorruptStateDetected(CorruptState::InvalidCompression(_)))
            | Err(EvsError::CorruptStateDetected(CorruptState::HashMismatch(_, _)))
    ));
    assert!(s.check(&vec![]).is_err());
}

#[test]
fn renamed_file_is_a_hash_mismatch() {
    let mut s = Store::new(vec![]);
    let h = s.insert(Object::Null);
    let wrong = "1".repeat(64);
    s.files[0].name = wrong.clone().into_bytes();
    match s.lookup(&wrong) {
        Err(EvsError::CorruptStateDetected(CorruptState::HashMismatch(name, digest))) => {
            assert_eq!(name, wrong.into_bytes());
            assert_eq!(digest, h.to_vec());
        },
        _ => panic!("expected a hash mismatch"),
    }
}

#[test]
fn bad_name_is_reported() {
    let s = Store::new(vec![StoreFile { name: b"not-a-hash".to_vec(), data: vec![], fresh: false }]);
    assert!(matches!(
        s.lookup("not"),
        Err(EvsError::CorruptStateDetected(CorruptState::InvalidObjectName(_)))
    ));
    assert!(matches!(
        s.resolve_rest("not".to_string()),
        Err(EvsError::CorruptStateDetected(CorruptState::InvalidObjectName(_)))
    ));
    assert!(matches!(
        s.check(&vec![]),
        Err(EvsError::CorruptStateDetected(CorruptState::InvalidObjectName(_)))
    ));
}

#[test]
fn undecodable_content_is_reported() {
    let bytes = b"not an object".to_vec();
    let digest: [u8; 32] = sha2::Sha256::digest(&bytes).into();
    let s = Store::new(vec![StoreFile { name: hex(&digest).into_bytes(), data: gz(&bytes), fresh: false }]);
    match s.lookup(&hex(&digest)) {
        Err(EvsError::CorruptStateDetected(CorruptState::InvalidObjectContent(h))) => assert_eq!(h, digest),
        _ => panic!("expected invalid content"),
    }
}

#[test]
fn check_reports_missing_references() {
    let mut s = Store::new(vec![]);
    let t = s.insert(Object::Tree(vec![
        TreeEntry { name: b"a".to_vec(), content: [0xaa; 32] },
        TreeEntry { name: b"b".to_vec(), content: [0xbb; 32] },
        TreeEntry { name: b"c".to_vec(), content: [0xaa; 32] },
    ]));
    match s.check(&vec![t]) {
        Err(EvsError::CorruptStateDetected(CorruptState::MissingObjects(first, rest))) => {
            assert_eq!(first, [0xaa; 32]);
            assert_eq!(rest, 1);
        },
        _ => panic!("expected missing objects"),
    }
    match s.check(&vec![[0x11; 32]]) {
        Err(EvsError::CorruptStateDetected(CorruptState::MissingObjects(first, rest))) => {
            assert_eq!(first, [0x11; 32]);
            assert_eq!(rest, 2);
        },
        _ => panic!("expected missing objects"),
    }
}

#[test]
fn check_lists_unreferenced_objects() {
    let mut s = Store::new(vec![]);
    let blob = s.insert(Object::Blob(b"x".to_vec()));
    let tree = s.insert(Object::Tree(vec![TreeEntry { name: b"x".to_vec(), content: blob }]));
    let loose = s.insert(Object::Blob(b"loose".to_vec()));
    let rep = s.check(&vec![tree]).unwrap();
    assert_eq!(rep.found, vec![blob, tree, loose]);
    assert_eq!(rep.unreferenced, vec![loose]);
}

#[test]
fn remove_drops_the_file_and_records_it() {
    let mut s = Store::new(vec![]);
    let a = s.insert(Object::Null);
    let b = s.insert(Object::Blob(vec![1, 2, 3]));
    s.remove(a).unwrap();
    assert_eq!(s.files.len(), 1);
    assert_eq!(s.removed, vec![hex(&a).into_bytes()]);
    assert!(matches!(s.remove(a), Err(EvsError::ObjectNotInStore(_))));
    assert!(s.lookup(&hex(&b)).is_ok());
}
