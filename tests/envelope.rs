use hk_passwordm::envelope::{open, seal};
use hk_passwordm::framing::{push_frame, read_raw_message};
use hk_passwordm::{read_envelope_text, StoreError};

fn key() -> Vec<u8> {
    (0u8..32).collect()
}

#[test]
fn seal_then_open_round_trip() {
    let p = b"svc|user|secret".to_vec();
    let e = seal(&p, &key(), b"").unwrap();
    assert_eq!(e.len(), 24 + 64 + 16);
    assert_eq!(open(&e, &key()).unwrap(), p);
}

#[test]
fn seal_encrypts_the_plaintext() {
    let p = vec![b'a'; 64];
    let e = seal(&p, &key(), b"").unwrap();
    assert_eq!(e.len(), 24 + 64 + 16);
    assert_ne!(&e[24..88], &p[..]);
}

#[test]
fn seal_nonce_begins_with_prefix() {
    let e = seal(b"x", &key(), b"12").unwrap();
    assert_eq!(&e[..2], b"12");
}

#[test]
fn seal_uses_only_first_32_key_bytes() {
    let mut long = key();
    long.extend_from_slice(b"ignored tail");
    let e = seal(b"hello", &long, b"").unwrap();
    assert_eq!(open(&e, &key()).unwrap(), b"hello".to_vec());
}

#[test]
fn open_with_wrong_key_fails() {
    let e = seal(b"hello", &key(), b"").unwrap();
    let mut other = key();
    other[0] ^= 1;
    assert_eq!(open(&e, &other), Err(StoreError::AuthFailure));
}

#[test]
fn flipping_a_ciphertext_bit_fails_authentication() {
    let e = seal(b"hello", &key(), b"").unwrap();
    for i in [24usize, 40, 87, e.len() - 1] {
        let mut t = e.clone();
        t[i] ^= 0x04;
        assert_eq!(open(&t, &key()), Err(StoreError::AuthFailure));
    }
}

#[test]
fn flipping_a_nonce_bit_fails_authentication() {
    let e = seal(b"hello", &key(), b"").unwrap();
    for i in [0usize, 11, 23] {
        let mut t = e.clone();
        t[i] ^= 0x80;
        assert_eq!(open(&t, &key()), Err(StoreError::AuthFailure));
    }
}

#[test]
fn open_truncated_envelope_fails() {
    let e = seal(b"hello", &key(), b"").unwrap();
    assert_eq!(open(&e[..20], &key()), Err(StoreError::AuthFailure));
    assert_eq!(open(&e[..e.len() - 8], &key()), Err(StoreError::AuthFailure));
}

#[test]
fn frames_read_back_in_order() {
    let mut f = Vec::new();
    push_frame(&mut f, b"first..!");
    push_frame(&mut f, b"");
    push_frame(&mut f, b"third...third...");
    assert_eq!(read_raw_message(&f, 0).unwrap(), b"first..!".to_vec());
    assert_eq!(read_raw_message(&f, 1).unwrap(), Vec::<u8>::new());
    assert_eq!(read_raw_message(&f, 2).unwrap(), b"third...third...".to_vec());
    assert_eq!(read_raw_message(&f, 3), Err(StoreError::FramingError));
}

#[test]
fn frame_without_delimiter_is_framing_error() {
    let f = vec![0u8; 40];
    assert_eq!(read_raw_message(&f, 0), Err(StoreError::FramingError));
}

#[test]
fn delimiter_off_stride_is_not_seen() {
    let mut f = b"abc".to_vec();
    f.extend_from_slice(b"EMHKPSWD");
    f.extend_from_slice(b"xxxxx");
    assert_eq!(read_raw_message(&f, 0), Err(StoreError::FramingError));
}

#[test]
fn invalid_text_is_encoding_error() {
    let e = seal(&[0xff, 0xfe, b'a'], &key(), b"").unwrap();
    let mut f = Vec::new();
    push_frame(&mut f, &e);
    assert_eq!(read_envelope_text(&f, &key(), 0), Err(StoreError::EncodingError));
}
