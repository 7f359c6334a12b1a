use mononoke_core::blobstore::Blobstore;
use mononoke_core::envelope::{decode_envelope, encode_envelope};
use mononoke_core::{
    cskey, parse_body, BlobChangeset, Caching, ChangesetContent, DirectUploader, ErrorKind, Extra,
    MemBlob, NodeHash, Parents, RedactedBlobstore, RevlogFault, Time,
};

fn hash(b: u8) -> NodeHash {
    NodeHash::new([b; 20])
}

fn hex(h: &NodeHash) -> String {
    h.bytes.iter().map(|b| format!("{:02x}", b)).collect()
}

fn body_of(c: &ChangesetContent) -> Vec<u8> {
    let mut v = Vec::new();
    c.generate(&mut v);
    v
}

fn simple(user: &[u8], p1: Option<NodeHash>, p2: Option<NodeHash>) -> ChangesetContent {
    ChangesetContent::new_from_parts(
        Parents { p1, p2 },
        NodeHash::null(),
        user.to_vec(),
        Time { time: 0, tz: 0 },
        Extra::new(),
        Vec::new(),
        Vec::new(),
    )
}

fn rich() -> ChangesetContent {
    let mut extra = Extra::new();
    extra.insert(b"branch".to_vec(), b"default".to_vec());
    extra.insert(b"a\nb".to_vec(), b"c\0d\\e".to_vec());
    ChangesetContent::new_from_parts(
        Parents { p1: Some(hash(0x22)), p2: Some(hash(0x11)) },
        hash(0xab),
        b"Jo Doe <jo@example.com>".to_vec(),
        Time { time: -1234, tz: -3600 },
        extra,
        vec![b"dir/a.txt".to_vec(), b"b".to_vec()],
        b"line one\n\nline: two\0".to_vec(),
    )
}

fn same_content(a: &ChangesetContent, b: &ChangesetContent) -> bool {
    a.parents.p1 == b.parents.p1
        && a.parents.p2 == b.parents.p2
        && a.manifestid == b.manifestid
        && a.user == b.user
        && a.time == b.time
        && a.extra.entries() == b.extra.entries()
        && a.files == b.files
        && a.comments == b.comments
}

#[test]
fn reference_vector_body_and_hash() {
    let c = simple(b"t", None, None);
    let body = body_of(&c);
    assert_eq!(body, b"0000000000000000000000000000000000000000\nt\n0 0\n\n".to_vec());
    let h = c.compute_hash().unwrap();
    assert_eq!(hex(&h), "4e7a45c2d79944710d044a7676020ad2a49dfbe5");
}

#[test]
fn body_with_extras_and_files() {
    let body = body_of(&rich());
    let mut expected = Vec::new();
    expected.extend_from_slice(&[b'a', b'b'].repeat(20));
    expected.extend_from_slice(b"\nJo Doe <jo@example.com>\n-1234 -3600 a\\nb:c\\0d\\\\e\0branch:default\n");
    expected.extend_from_slice(b"dir/a.txt\nb\n\nline one\n\nline: two\0");
    assert_eq!(body, expected);
}

#[test]
fn round_trip_through_text() {
    for c in [rich(), simple(b"t", None, None), simple(b"", Some(hash(1)), None)] {
        let body = body_of(&c);
        let back = parse_body(c.parents, &body).unwrap();
        assert!(same_content(&c, &back));
    }
}

#[test]
fn extreme_times_round_trip() {
    let mut c = simple(b"u", None, None);
    c.time = Time { time: i64::MIN, tz: i32::MAX };
    let back = parse_body(c.parents, &body_of(&c)).unwrap();
    assert_eq!(back.time, c.time);
    c.time = Time { time: i64::MAX, tz: i32::MIN };
    let back = parse_body(c.parents, &body_of(&c)).unwrap();
    assert_eq!(back.time, c.time);
}

#[test]
fn malformed_text_is_refused() {
    let p = Parents { p1: None, p2: None };
    assert_eq!(parse_body(p, &b"abc\nu\n0 0\n\n".to_vec()).err(), Some(ErrorKind::Revlog(RevlogFault::BadManifest)));
    let mut t = b"0000000000000000000000000000000000000000\nu\n".to_vec();
    assert_eq!(parse_body(p, &t).err(), Some(ErrorKind::Revlog(RevlogFault::MissingLine)));
    t.extend_from_slice(b"x 0\n\n");
    assert_eq!(parse_body(p, &t).err(), Some(ErrorKind::Revlog(RevlogFault::BadTime)));
    let t = b"0000000000000000000000000000000000000000\nu\n0 0 nocolon\n\n".to_vec();
    assert_eq!(parse_body(p, &t).err(), Some(ErrorKind::Revlog(RevlogFault::BadExtra)));
    let t = b"0000000000000000000000000000000000000000\nu\n0 0\nfile\n".to_vec();
    assert_eq!(parse_body(p, &t).err(), Some(ErrorKind::Revlog(RevlogFault::MissingLine)));
}

#[test]
fn only_canonical_text_is_accepted() {
    let p = Parents { p1: None, p2: None };
    let zeros = "0".repeat(40);
    for line in ["00 0", "-0 0", "0 +1", "0 0 k:\\x", "0 0 k:\r", "0 0 b:1\0a:2", "0 4294967296"] {
        let mut t = zeros.clone().into_bytes();
        t.extend_from_slice(b"\nu\n");
        t.extend_from_slice(line.as_bytes());
        t.extend_from_slice(b"\n\n");
        assert!(parse_body(p, &t).is_err(), "{}", line);
    }
    let mut t = zeros.into_bytes();
    t.extend_from_slice(b"\nu\n0 0 k:a\rb\n\n");
    assert_eq!(parse_body(p, &t).err(), Some(ErrorKind::Revlog(RevlogFault::BadExtra)));
}

#[test]
fn extras_stay_sorted_and_replace() {
    let mut e = Extra::new();
    e.insert(b"b".to_vec(), b"1".to_vec());
    e.insert(b"a".to_vec(), b"2".to_vec());
    e.insert(b"ab".to_vec(), b"3".to_vec());
    e.insert(b"b".to_vec(), b"4".to_vec());
    let keys: Vec<(Vec<u8>, Vec<u8>)> = e.entries().clone();
    assert_eq!(
        keys,
        vec![
            (b"a".to_vec(), b"2".to_vec()),
            (b"ab".to_vec(), b"3".to_vec()),
            (b"b".to_vec(), b"4".to_vec()),
        ]
    );
    assert_eq!(e.len(), 3);
    assert!(Extra::from_sorted(vec![(b"b".to_vec(), vec![]), (b"a".to_vec(), vec![])]).is_none());
}

#[test]
fn hash_ignores_parent_order_and_sees_every_field() {
    let a = simple(b"t", Some(hash(1)), Some(hash(2)));
    let b = simple(b"t", Some(hash(2)), Some(hash(1)));
    assert_eq!(a.compute_hash().unwrap(), b.compute_hash().unwrap());
    let base = rich().compute_hash().unwrap();
    let mut c = rich();
    c.time.tz += 1;
    assert_ne!(c.compute_hash().unwrap(), base);
    let mut c = rich();
    c.files.reverse();
    assert_ne!(c.compute_hash().unwrap(), base);
    let mut c = rich();
    c.extra.insert(b"branch".to_vec(), b"other".to_vec());
    assert_ne!(c.compute_hash().unwrap(), base);
    let c = rich();
    assert_eq!(c.compute_hash().unwrap(), base);
}

#[test]
fn save_then_load() {
    let cs = BlobChangeset::new(rich()).unwrap();
    let id = cs.get_changeset_id();
    let mut store = MemBlob::new();
    cs.save(&mut store).unwrap();
    let back = BlobChangeset::load(&store, &id).unwrap().unwrap();
    assert_eq!(back.get_changeset_id(), id);
    assert_eq!(back.user(), cs.user());
    assert_eq!(back.files(), cs.files());
    assert_eq!(back.comments(), cs.comments());
    assert_eq!(back.time(), cs.time());
    assert_eq!(back.manifestid(), cs.manifestid());
    assert_eq!(back.extra().entries(), cs.extra().entries());
    assert_eq!(back.parents().p1, Some(hash(0x22)));
    assert_eq!(back.parents().p2, Some(hash(0x11)));
    // Saving again writes the same bytes.
    let key = cskey(&id);
    let first = store.get(&key).unwrap().unwrap();
    cs.save(&mut store).unwrap();
    assert_eq!(store.get(&key).unwrap().unwrap(), first);
}

#[test]
fn missing_changeset_is_none() {
    let store = MemBlob::new();
    assert!(BlobChangeset::load(&store, &hash(7)).unwrap().is_none());
}

#[test]
fn null_id_loads_empty_record() {
    let store = MemBlob::new();
    let cs = BlobChangeset::load(&store, &NodeHash::null()).unwrap().unwrap();
    assert!(cs.get_changeset_id().is_null());
    assert!(cs.manifestid().is_null());
    assert!(cs.files().is_empty());
    assert!(cs.comments().is_empty());
    assert!(cs.user().is_empty());
    assert!(cs.extra().is_empty());
    assert!(cs.parents().p1.is_none() && cs.parents().p2.is_none());
}

#[test]
fn redacted_changeset_reads_as_missing() {
    let cs = BlobChangeset::new(rich()).unwrap();
    let id = cs.get_changeset_id();
    let mut inner = MemBlob::new();
    cs.save(&mut inner).unwrap();
    let key = cskey(&id);
    let store = RedactedBlobstore::new(inner, vec![(key.clone(), "legal hold".to_string())]);
    assert!(BlobChangeset::load(&store, &id).unwrap().is_none());
    assert_eq!(store.is_present(&key), Ok(false));
    assert!(store.assert_present(&key).is_err());
    assert_eq!(store.redaction_reason(&key), Some("legal hold".to_string()));
    let other = cskey(&hash(3));
    assert_eq!(store.redaction_reason(&other), None);
}

#[test]
fn wrong_id_is_a_hash_mismatch() {
    let c = rich();
    let body = body_of(&c);
    let blob = encode_envelope(&c.parents.p1, &c.parents.p2, &body);
    let mut store = MemBlob::new();
    store.put(cskey(&hash(9)), blob).unwrap();
    assert!(c.compute_hash().unwrap() != hash(9));
    assert_eq!(BlobChangeset::load(&store, &hash(9)).err(), Some(ErrorKind::HashMismatch));
}

#[test]
fn save_keys_by_content_hash() {
    let right = BlobChangeset::new(rich()).unwrap();
    let labelled = BlobChangeset::new_with_id(&hash(9), rich());
    let mut a = MemBlob::new();
    let mut b = MemBlob::new();
    right.save(&mut a).unwrap();
    labelled.save(&mut b).unwrap();
    let key = cskey(&right.get_changeset_id());
    assert_eq!(a.get(&key).unwrap(), b.get(&key).unwrap());
    assert!(a.get(&key).unwrap().is_some());
    assert_eq!(b.get(&cskey(&hash(9))), Ok(None));
}

#[test]
fn redacted_store_hides_even_valid_blobs() {
    let cs = BlobChangeset::new(rich()).unwrap();
    let id = cs.get_changeset_id();
    let key = cskey(&id);
    let mut store = RedactedBlobstore::new(MemBlob::new(), vec![(key.clone(), "takedown".to_string())]);
    cs.save(&mut store).unwrap();
    assert_eq!(store.get(&key), Ok(None));
    assert!(matches!(BlobChangeset::load(&store, &id), Ok(None)));
}

#[test]
fn corrupt_blob_is_refused() {
    let mut store = MemBlob::new();
    store.put(cskey(&hash(5)), b"garbage".to_vec()).unwrap();
    assert_eq!(
        BlobChangeset::load(&store, &hash(5)).err(),
        Some(ErrorKind::Revlog(RevlogFault::BadEnvelope))
    );
}

#[test]
fn key_format() {
    let key = cskey(&hash(0xab));
    assert_eq!(key, format!("changeset-{}.framed", "ab".repeat(20)));
}

#[test]
fn envelope_round_trip() {
    let body = b"some text\n".to_vec();
    let e = encode_envelope(&None, &Some(hash(4)), &body);
    let mut expected = vec![0u8, 1];
    expected.extend_from_slice(&[4u8; 20]);
    expected.extend_from_slice(b"10\nsome text\n");
    assert_eq!(e, expected);
    let (p1, p2, b) = decode_envelope(&e).unwrap();
    assert_eq!(p1, None);
    assert_eq!(p2, Some(hash(4)));
    assert_eq!(b, body);
    let mut short = e.clone();
    short.pop();
    assert!(decode_envelope(&short).is_none());
}

#[test]
fn mem_blob_keeps_last_write() {
    let mut store = MemBlob::new();
    let k = "k".to_string();
    assert_eq!(store.get(&k), Ok(None));
    store.put(k.clone(), vec![1]).unwrap();
    store.put(k.clone(), vec![2]).unwrap();
    assert_eq!(store.get(&k), Ok(Some(vec![2])));
    assert_eq!(store.is_present(&k), Ok(true));
    assert!(store.assert_present(&"other".to_string()).is_err());
}

#[test]
fn uploader_shares_repo() {
    let up = DirectUploader::new(MemBlob::new());
    let copy = up.clone();
    assert!(copy.repo_ref().get(&"x".to_string()).unwrap().is_none());
    assert_ne!(Caching::Enabled, Caching::Disabled);
}
