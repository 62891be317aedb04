use minigit::{decode_stored, digest_to_hex, hash_and_compress, Kind, Store, StoreError};

fn bytes(s: &str) -> Vec<u8> {
    s.as_bytes().to_vec()
}

#[test]
fn put_is_deterministic_and_idempotent() {
    let mut store = Store::new();
    let d1 = store.put(Kind::Blob, &bytes("hello world\n"));
    let d2 = store.put(Kind::Blob, &bytes("hello world\n"));
    assert_eq!(d1, d2);
    assert_eq!(digest_to_hex(&d1), bytes("3b18e512dba79e4c8300dd08aeb37f8e728b8dad"));
    assert!(store.contains(&d1));
    // A second store, written independently, addresses the same content
    // under the same digest.
    let mut other = Store::new();
    let d3 = other.put(Kind::Blob, &bytes("hello world\n"));
    assert_eq!(d1, d3);
}

#[test]
fn digests_separate_kinds_and_content() {
    let mut store = Store::new();
    let a = store.put(Kind::Blob, &bytes("x"));
    let b = store.put(Kind::Tree, &bytes("x"));
    let c = store.put(Kind::Blob, &bytes("y"));
    assert_ne!(a, b);
    assert_ne!(a, c);
}

#[test]
fn get_round_trip() {
    let mut store = Store::new();
    let payload = bytes("some file content");
    let d = store.put(Kind::Blob, &payload);
    let o = store.get(&d).unwrap();
    assert_eq!(o.kind, Kind::Blob);
    assert_eq!(o.expected_size as usize, payload.len());
    assert_eq!(o.payload, payload);
}

#[test]
fn get_missing_is_not_found() {
    let store = Store::new();
    let d = [0u8; 20];
    assert_eq!(store.get(&d).map(|o| o.kind), Err(StoreError::NotFound));
    assert!(!store.contains(&d));
}

#[test]
fn read_blob_checks_kind() {
    let mut store = Store::new();
    let b = store.put(Kind::Blob, &bytes("content"));
    assert_eq!(store.read_blob(&b), Ok(bytes("content")));
    let t = store.put(Kind::Commit, &bytes("tree x\n"));
    assert_eq!(store.read_blob(&t), Err(StoreError::UnsupportedKind));
    assert_eq!(store.read_blob(&[9u8; 20]), Err(StoreError::NotFound));
}

#[test]
fn stored_bytes_decode_back() {
    let (d, compressed) = hash_and_compress(Kind::Blob, &bytes("round trip me"));
    let o = decode_stored(&compressed).unwrap();
    assert_eq!(o.kind, Kind::Blob);
    assert_eq!(o.payload, bytes("round trip me"));
    let (d2, _) = hash_and_compress(Kind::Blob, &o.payload);
    assert_eq!(d, d2);
}

#[test]
fn truncated_stored_bytes_are_rejected() {
    let (_, compressed) = hash_and_compress(Kind::Blob, &bytes("some content that compresses"));
    for cut in [1usize, 2, 5, compressed.len() / 2, compressed.len() - 1] {
        let truncated: Vec<u8> = compressed[..cut].to_vec();
        match decode_stored(&truncated) {
            Err(_) => {}
            Ok(o) => panic!("truncated object decoded to {:?} bytes", o.payload.len()),
        }
    }
}

#[test]
fn bogus_compressed_stream_is_rejected() {
    // A valid zlib stream whose decompressed form has an unknown kind name.
    let mut enc =
        flate2::write::ZlibEncoder::new(Vec::new(), flate2::Compression::default());
    std::io::Write::write_all(&mut enc, b"bogus 3\0abc").unwrap();
    let stream = enc.finish().unwrap();
    assert_eq!(decode_stored(&stream).map(|o| o.kind), Err(StoreError::CorruptHeader));
    // Bytes that are no zlib stream at all.
    assert_eq!(
        decode_stored(&bytes("not compressed")).map(|o| o.kind),
        Err(StoreError::CorruptHeader)
    );
}

#[test]
fn compressed_bytes_round_trip_through_decode() {
    let mut store = Store::new();
    let d = store.put(Kind::Blob, &bytes("persist me"));
    let raw = store.compressed_bytes(&d).unwrap();
    let o = decode_stored(&raw).unwrap();
    assert_eq!(o.payload, bytes("persist me"));
    assert_eq!(store.compressed_bytes(&[1u8; 20]), None);
    let listed = store.digest_list();
    assert_eq!(listed, vec![d]);
}
