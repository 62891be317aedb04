use minigit::{decode_object, encode_rep, u64_to_dec, Kind, Mode, StoreError};
use minigit::{bytes_to_hex, digest_to_hex, hash_and_compress, hex_to_bytes};

fn bytes(s: &str) -> Vec<u8> {
    s.as_bytes().to_vec()
}

#[test]
fn decimal_rendering_exact() {
    assert_eq!(u64_to_dec(0), bytes("0"));
    assert_eq!(u64_to_dec(7), bytes("7"));
    assert_eq!(u64_to_dec(1234567890), bytes("1234567890"));
    assert_eq!(u64_to_dec(u64::MAX), bytes("18446744073709551615"));
}

#[test]
fn header_layout_exact() {
    let rep = encode_rep(Kind::Blob, &bytes("abc"));
    assert_eq!(rep, bytes("blob 3\0abc"));
    let rep = encode_rep(Kind::Tree, &Vec::new());
    assert_eq!(rep, bytes("tree 0\0"));
    let rep = encode_rep(Kind::Commit, &bytes("x"));
    assert_eq!(rep, bytes("commit 1\0x"));
    let rep = encode_rep(Kind::Tag, &bytes("yy"));
    assert_eq!(rep, bytes("tag 2\0yy"));
}

#[test]
fn decode_round_trip() {
    let rep = encode_rep(Kind::Blob, &bytes("hello world\n"));
    let o = decode_object(&rep).unwrap();
    assert_eq!(o.kind, Kind::Blob);
    assert_eq!(o.expected_size, 12);
    assert_eq!(o.payload, bytes("hello world\n"));
}

#[test]
fn decode_bounds_payload_to_declared_size() {
    // More bytes remain after the declared size: the reader must never
    // hand them out.
    let data = bytes("blob 3\0abcXYZ");
    let o = decode_object(&data).unwrap();
    assert_eq!(o.expected_size, 3);
    assert_eq!(o.payload, bytes("abc"));
}

#[test]
fn decode_size_mismatch() {
    let data = bytes("blob 5\0abc");
    match decode_object(&data) {
        Err(StoreError::SizeMismatch { expected, actual }) => {
            assert_eq!(expected, 5);
            assert_eq!(actual, 3);
        }
        other => panic!("expected a size mismatch, got {:?}", other),
    }
}

#[test]
fn decode_corrupt_headers() {
    assert_eq!(decode_object(&bytes("blob 3 abc")), Err(StoreError::CorruptHeader));
    assert_eq!(decode_object(&bytes("blip 3\0abc")), Err(StoreError::CorruptHeader));
    assert_eq!(decode_object(&bytes("blob x\0abc")), Err(StoreError::CorruptHeader));
    assert_eq!(decode_object(&bytes("blob\03abc")), Err(StoreError::CorruptHeader));
    assert_eq!(decode_object(&bytes("blob 18446744073709551616\0")), Err(StoreError::CorruptHeader));
    let mut long = bytes("blob ");
    long.extend(std::iter::repeat(b'1').take(40));
    long.push(0);
    assert_eq!(decode_object(&long), Err(StoreError::CorruptHeader));
}

#[test]
fn mode_strings() {
    assert_eq!(Mode::from_str("040000"), Ok(Mode::Directory));
    assert_eq!(Mode::from_str("100644"), Ok(Mode::File));
    assert_eq!(Mode::from_str("100755"), Ok(Mode::Executable));
    assert_eq!(Mode::from_str("120000"), Ok(Mode::SymbolicLink));
    assert_eq!(Mode::from_str("100645"), Err(StoreError::UnsupportedKind));
    assert_eq!(Mode::from_str(""), Err(StoreError::UnsupportedKind));
    assert!(Mode::Directory.is_dir());
    assert!(!Mode::File.is_dir());
    assert_eq!(Mode::File.to_bytes(), bytes("100644"));
    assert_eq!(Mode::Executable.to_bytes(), bytes("100755"));
    assert_eq!(Mode::Directory.to_bytes(), bytes("040000"));
    assert_eq!(Mode::SymbolicLink.to_bytes(), bytes("120000"));
}

#[test]
fn mode_classification() {
    assert_eq!(Mode::from_flags(true, false, false, 0), Mode::Directory);
    assert_eq!(Mode::from_flags(false, true, false, 0), Mode::SymbolicLink);
    assert_eq!(Mode::from_flags(false, false, true, 0o755), Mode::Executable);
    assert_eq!(Mode::from_flags(false, false, true, 0o644), Mode::File);
    assert_eq!(Mode::from_flags(false, false, false, 0), Mode::File);
}

#[test]
fn kind_of_mode() {
    assert_eq!(Kind::from(Mode::File), Kind::Blob);
    assert_eq!(Kind::from(Mode::Executable), Kind::Blob);
    assert_eq!(Kind::from(Mode::Directory), Kind::Tree);
    // A symbolic link stores its target path as blob content.
    assert_eq!(Kind::from(Mode::SymbolicLink), Kind::Blob);
}

#[test]
fn hex_rendering() {
    assert_eq!(bytes_to_hex(&vec![0x00, 0xff, 0x1a]), bytes("00ff1a"));
    assert_eq!(bytes_to_hex(&Vec::new()), Vec::<u8>::new());
    let data = vec![0xde, 0xad, 0xbe, 0xef, 0x01, 0x23];
    let mine = String::from_utf8(bytes_to_hex(&data)).unwrap();
    assert_eq!(mine, hex::encode(&data));
}

#[test]
fn hex_decoding() {
    assert_eq!(hex_to_bytes(&bytes("00ff1a")), Some(vec![0x00, 0xff, 0x1a]));
    assert_eq!(hex_to_bytes(&bytes("0")), None);
    assert_eq!(hex_to_bytes(&bytes("0g")), None);
    assert_eq!(hex_to_bytes(&bytes("AB")), None);
    let data = vec![1, 2, 3, 254];
    assert_eq!(hex_to_bytes(&bytes_to_hex(&data)), Some(data));
}

#[test]
fn known_digests() {
    let (d, _) = hash_and_compress(Kind::Blob, &Vec::new());
    assert_eq!(digest_to_hex(&d), bytes("e69de29bb2d1d6434b8b29ae775ad8c2e48c5391"));
    let (d, _) = hash_and_compress(Kind::Blob, &bytes("hello world\n"));
    assert_eq!(digest_to_hex(&d), bytes("3b18e512dba79e4c8300dd08aeb37f8e728b8dad"));
    let (d, _) = hash_and_compress(Kind::Blob, &bytes("test content\n"));
    assert_eq!(digest_to_hex(&d), bytes("d670460b4b4aece5915caf5c68d12f560a9fe3e4"));
}
