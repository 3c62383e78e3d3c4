use psicose::aead::{open, open_from, seal, seal_to, sealed_len, AeadError, KEY_LEN, NONCE_LEN, TAG_LEN};

#[test]
fn roundtrip_detached() {
    let key = [0x11u8; KEY_LEN];
    let nonce = [0x22u8; NONCE_LEN];
    let mut buf = *b"psicose-aead";
    let mut tag = [0u8; TAG_LEN];
    assert_eq!(seal(&key, &nonce, b"aad", &mut buf, &mut tag), Ok(()));
    assert_ne!(&buf, b"psicose-aead");
    assert_eq!(open(&key, &nonce, b"aad", &mut buf, &tag), Ok(()));
    assert_eq!(&buf, b"psicose-aead");
}

#[test]
fn tampered_tag_fails() {
    let key = [0x33u8; KEY_LEN];
    let nonce = [0x44u8; NONCE_LEN];
    let mut buf = *b"hello";
    let mut tag = [0u8; TAG_LEN];
    assert_eq!(seal(&key, &nonce, b"", &mut buf, &mut tag), Ok(()));
    tag[0] ^= 0x01;
    assert_eq!(open(&key, &nonce, b"", &mut buf, &tag), Err(AeadError::Crypto));
}

#[test]
fn seal_to_open_from() {
    let key = [0x55u8; KEY_LEN];
    let nonce = [0x66u8; NONCE_LEN];
    let pt = [0x01u8, 0x02, 0x03, 0x04];
    let mut packed = [0u8; 64];
    assert_eq!(sealed_len(pt.len()), Some(pt.len() + TAG_LEN));
    assert_eq!(seal_to(&key, &nonce, b"", &pt, &mut packed), Ok(pt.len() + TAG_LEN));
    let n = pt.len() + TAG_LEN;
    let mut out = [0u8; 32];
    assert_eq!(open_from(&key, &nonce, b"", &packed[..n], &mut out), Ok(pt.len()));
    assert_eq!(&out[..pt.len()], &pt);
}

#[test]
fn rfc8439_vector_seals_to_the_published_ciphertext_and_tag() {
    // RFC 8439, section 2.8.2.
    let key: [u8; 32] = [
        0x80, 0x81, 0x82, 0x83, 0x84, 0x85, 0x86, 0x87, 0x88, 0x89, 0x8a, 0x8b, 0x8c, 0x8d, 0x8e, 0x8f,
        0x90, 0x91, 0x92, 0x93, 0x94, 0x95, 0x96, 0x97, 0x98, 0x99, 0x9a, 0x9b, 0x9c, 0x9d, 0x9e, 0x9f,
    ];
    let nonce: [u8; 12] = [0x07, 0x00, 0x00, 0x00, 0x40, 0x41, 0x42, 0x43, 0x44, 0x45, 0x46, 0x47];
    let aad: [u8; 12] = [0x50, 0x51, 0x52, 0x53, 0xc0, 0xc1, 0xc2, 0xc3, 0xc4, 0xc5, 0xc6, 0xc7];
    let mut buf = *b"Ladies and Gentlemen of the class of '99: If I could offer you only one tip for the future, sunscreen would be it.";
    let mut tag = [0u8; TAG_LEN];
    assert_eq!(seal(&key, &nonce, &aad, &mut buf, &mut tag), Ok(()));
    assert_eq!(&buf[..8], &[0xd3, 0x1a, 0x8d, 0x34, 0x64, 0x8e, 0x60, 0xdb]);
    assert_eq!(
        tag,
        [0x1a, 0xe1, 0x0b, 0x59, 0x4f, 0x09, 0xe2, 0x6a, 0x7e, 0x90, 0x2e, 0xcb, 0xd0, 0x60, 0x06, 0x91]
    );
}

#[test]
fn seal_to_refuses_a_short_output() {
    let key = [1u8; KEY_LEN];
    let nonce = [2u8; NONCE_LEN];
    let mut out = [0u8; 19];
    assert_eq!(seal_to(&key, &nonce, b"", &[1, 2, 3, 4], &mut out), Err(AeadError::Buffer));
    assert_eq!(out, [0u8; 19]);
}

#[test]
fn open_from_refuses_short_input_and_short_output() {
    let key = [1u8; KEY_LEN];
    let nonce = [2u8; NONCE_LEN];
    let mut out = [0u8; 4];
    assert_eq!(open_from(&key, &nonce, b"", &[0u8; 15], &mut out), Err(AeadError::Crypto));
    assert_eq!(open_from(&key, &nonce, b"", &[0u8; 21], &mut out), Err(AeadError::Buffer));
}

#[test]
fn wrong_aad_fails_to_open() {
    let key = [9u8; KEY_LEN];
    let nonce = [8u8; NONCE_LEN];
    let mut packed = [0u8; 24];
    assert_eq!(seal_to(&key, &nonce, b"one", &[7u8; 8], &mut packed), Ok(24));
    let mut out = [0u8; 8];
    assert_eq!(open_from(&key, &nonce, b"two", &packed, &mut out), Err(AeadError::Crypto));
}
