use pwsafe::crypto::{
    decrypt_block_ecb, decrypt_inplace, encrypt_block_ecb, encrypt_inplace, sha256, stretch, HMAC,
};
use pwsafe::item::{parse, Catalog, Data, Def, Field, Kind, Type};
use pwsafe::PwsError;

#[test]
fn sha256_known_vector() {
    let got = sha256(b"abc");
    let expected: [u8; 32] = [
        0xba, 0x78, 0x16, 0xbf, 0x8f, 0x01, 0xcf, 0xea, 0x41, 0x41, 0x40, 0xde, 0x5d, 0xae, 0x22,
        0x23, 0xb0, 0x03, 0x61, 0xa3, 0x96, 0x17, 0x7a, 0x9c, 0xb4, 0x10, 0xff, 0x61, 0xf2, 0x00,
        0x15, 0xad,
    ];
    assert_eq!(got.as_slice(), &expected);
}

#[test]
fn hmac_known_vector() {
    let mut mac = HMAC::new(b"key");
    mac.update(b"The quick brown fox ");
    mac.update(b"jumps over the lazy dog");
    let got = mac.get_mac();
    let expected: [u8; 32] = [
        0xf7, 0xbc, 0x83, 0xf4, 0x30, 0x53, 0x84, 0x24, 0xb1, 0x32, 0x98, 0xe6, 0xaa, 0x6f, 0xb1,
        0x43, 0xef, 0x4d, 0x59, 0xa1, 0x49, 0x46, 0x17, 0x59, 0x97, 0x47, 0x9d, 0xbc, 0x2d, 0x1a,
        0x3c, 0xd8,
    ];
    assert_eq!(got.as_slice(), &expected);
    assert!(mac.verify(&expected).is_ok());
    let mut wrong = expected;
    wrong[0] ^= 1;
    assert_eq!(mac.verify(&wrong), Err(PwsError::Authentication));
}

#[test]
fn stretch_is_deterministic() {
    let salt = [7u8; 32];
    let a = stretch("abc", &salt, 10);
    let b = stretch("abc", &salt, 10);
    assert_eq!(a, b);
    // one more round is one more digest
    assert_eq!(sha256(&a), stretch("abc", &salt, 11));
}

#[test]
fn stretch_zero_iterations_is_one_digest() {
    let salt = [9u8; 32];
    let mut cat = b"pw".to_vec();
    cat.extend_from_slice(&salt);
    assert_eq!(stretch("pw", &salt, 0), sha256(&cat));
}

#[test]
fn ecb_round_trip() {
    let key = [0x42u8; 32];
    let plain = [0u8; 32];
    let ct = encrypt_block_ecb(&plain, &key).expect("sizes are right");
    assert_ne!(ct.as_slice(), &plain[..]);
    // no chaining: equal plaintext blocks give equal ciphertext blocks
    assert_eq!(&ct[0..16], &ct[16..32]);
    let back = decrypt_block_ecb(&ct, &key).expect("sizes are right");
    assert_eq!(back.as_slice(), &plain[..]);
}

#[test]
fn ecb_rejects_bad_sizes() {
    assert_eq!(
        encrypt_block_ecb(&[0u8; 31], &[0u8; 32]),
        Err(PwsError::Crypto)
    );
    assert_eq!(
        decrypt_block_ecb(&[0u8; 32], &[0u8; 16]),
        Err(PwsError::Crypto)
    );
}

#[test]
fn cbc_round_trip() {
    let key = [0x13u8; 32];
    let iv = [0x37u8; 16];
    let plain = vec![0u8; 32];
    let mut buf = plain.clone();
    encrypt_inplace(&mut buf, &key, &iv).expect("aligned");
    assert_ne!(buf, plain);
    // chaining: equal plaintext blocks give different ciphertext blocks
    assert_ne!(&buf[0..16], &buf[16..32]);
    decrypt_inplace(&mut buf, &key, &iv).expect("aligned");
    assert_eq!(buf, plain);
}

#[test]
fn cbc_rejects_misaligned_buffer() {
    let key = [0u8; 32];
    let iv = [0u8; 16];
    let mut buf = vec![0u8; 31];
    assert_eq!(decrypt_inplace(&mut buf, &key, &iv), Err(PwsError::Crypto));
    assert_eq!(encrypt_inplace(&mut buf, &key, &iv), Err(PwsError::Crypto));
}

#[test]
fn field_layout_is_padded_to_blocks() {
    let f = Field {
        def: Def { kind: Kind::Title, tp: Type::Text },
        data: Data::Text("abc".to_string()),
    };
    let mut out: Vec<u8> = Vec::new();
    let mut mac = HMAC::new(b"k");
    f.serialize(&mut out, &mut mac).expect("encodable");
    let expected: Vec<u8> = vec![
        3, 0, 0, 0, // payload length, little-endian
        0x03, // tag for the title field
        b'a', b'b', b'c', // payload
        0, 0, 0, 0, 0, 0, 0, 0, // zero fill up to a whole block
    ];
    assert_eq!(out, expected);
    assert_eq!((5 + 3 + 8) % 16, 0);
}

#[test]
fn serialize_unknown_kind_is_refused() {
    let f = Field {
        def: Def { kind: Kind::Unknown, tp: Type::Raw },
        data: Data::Raw(vec![1]),
    };
    let mut out: Vec<u8> = Vec::new();
    let mut mac = HMAC::new(b"k");
    assert_eq!(f.serialize(&mut out, &mut mac), Err(PwsError::Format));
    assert!(out.is_empty());
}

#[test]
fn unknown_tag_record_parses_without_the_field() {
    let mut bytes: Vec<u8> = vec![3, 0, 0, 0, 0xee, 1, 2, 3, 0, 0, 0, 0, 0, 0, 0, 0];
    bytes.extend_from_slice(&[0, 0, 0, 0, 0xff, 0, 0, 0, 0, 0, 0, 0, 0, 0, 0, 0]);
    let mut mac = HMAC::new(b"k");
    let mut pos: usize = 0;
    let it = parse(&mut mac, Catalog::Data, &bytes, &mut pos)
        .expect("stream is well formed")
        .expect("one record is present");
    assert_eq!(it.iter().len(), 0);
    assert_eq!(pos, 32);
}

#[test]
fn empty_stream_is_a_clean_end() {
    let mut mac = HMAC::new(b"k");
    let mut pos: usize = 0;
    assert_eq!(parse(&mut mac, Catalog::Data, &[], &mut pos), Ok(None));
}

#[test]
fn truncated_field_is_corrupt() {
    let mut mac = HMAC::new(b"k");
    let mut pos: usize = 0;
    // a length header with no type byte after it
    assert_eq!(
        parse(&mut mac, Catalog::Data, &[5, 0, 0, 0], &mut pos),
        Err(PwsError::CorruptRecord)
    );
}

#[test]
fn stream_ending_mid_record_is_corrupt() {
    // one unknown field, then end-of-stream where the next header should be
    let bytes: Vec<u8> = vec![3, 0, 0, 0, 0xee, 1, 2, 3, 0, 0, 0, 0, 0, 0, 0, 0];
    let mut mac = HMAC::new(b"k");
    let mut pos: usize = 0;
    assert_eq!(
        parse(&mut mac, Catalog::Data, &bytes, &mut pos),
        Err(PwsError::CorruptRecord)
    );
}

#[test]
fn short_payload_for_typed_field_is_corrupt() {
    // CreateTime is a 4-byte integer; a 2-byte payload cannot carry it
    let bytes: Vec<u8> = vec![2, 0, 0, 0, 0x07, 1, 0, 0, 0, 0, 0, 0, 0, 0, 0, 0];
    let mut mac = HMAC::new(b"k");
    let mut pos: usize = 0;
    assert_eq!(
        parse(&mut mac, Catalog::Data, &bytes, &mut pos),
        Err(PwsError::CorruptRecord)
    );
}

#[test]
fn int_field_ignores_extra_payload_bytes() {
    let mut bytes: Vec<u8> = vec![6, 0, 0, 0, 0x07, 1, 0, 0, 0, 9, 9, 0, 0, 0, 0, 0];
    bytes.extend_from_slice(&[0, 0, 0, 0, 0xff, 0, 0, 0, 0, 0, 0, 0, 0, 0, 0, 0]);
    let mut mac = HMAC::new(b"k");
    let mut pos: usize = 0;
    let it = parse(&mut mac, Catalog::Data, &bytes, &mut pos)
        .expect("stream is well formed")
        .expect("one record is present");
    assert_eq!(it.get(Kind::CreateTime), Some(&Data::Int(1)));
}

#[test]
fn lenient_text_decoding_replaces_bad_bytes() {
    // a Notes field whose payload is not valid UTF-8
    let mut bytes: Vec<u8> = vec![2, 0, 0, 0, 0x05, 0xff, b'a', 0, 0, 0, 0, 0, 0, 0, 0, 0];
    bytes.extend_from_slice(&[0, 0, 0, 0, 0xff, 0, 0, 0, 0, 0, 0, 0, 0, 0, 0, 0]);
    let mut mac = HMAC::new(b"k");
    let mut pos: usize = 0;
    let it = parse(&mut mac, Catalog::Data, &bytes, &mut pos)
        .expect("stream is well formed")
        .expect("one record is present");
    assert_eq!(it.get(Kind::Notes), Some(&Data::Text("\u{FFFD}a".to_string())));
}

#[test]
fn header_catalog_reads_version_field() {
    let mut bytes: Vec<u8> = vec![2, 0, 0, 0, 0x00, 3, 0, 0, 0, 0, 0, 0, 0, 0, 0, 0];
    bytes.extend_from_slice(&[0, 0, 0, 0, 0xff, 0, 0, 0, 0, 0, 0, 0, 0, 0, 0, 0]);
    let mut mac = HMAC::new(b"k");
    let mut pos: usize = 0;
    let it = parse(&mut mac, Catalog::Header, &bytes, &mut pos)
        .expect("stream is well formed")
        .expect("one record is present");
    assert_eq!(it.get(Kind::Version), Some(&Data::Short(3)));
    // the same tag means nothing in the entry catalog
    let mut mac = HMAC::new(b"k");
    let mut pos: usize = 0;
    let it = parse(&mut mac, Catalog::Data, &bytes, &mut pos)
        .expect("stream is well formed")
        .expect("one record is present");
    assert_eq!(it.get(Kind::Version), None);
}
