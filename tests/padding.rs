use chacha20poly1305::aead::rand_core::Error as RandError;
use hk_passwordm::padding::{add_padding, extend_with_draw, fill_random_bytes, remove_padding};
use hk_passwordm::StoreError;
use std::num::NonZeroU32;
use hk_passwordm::text::{decimal_digits, join_fields, split_fields};

#[test]
fn pad_short_message_to_one_block() {
    let p = b"HK PASSWORD MANAGER FILE";
    let r = add_padding(p).unwrap();
    assert_eq!(r.len(), 64);
    assert_eq!(&r[..24], &p[..]);
    assert_eq!(r[24], 60);
}

#[test]
fn pad_leaves_aligned_message_unchanged() {
    let p = vec![7u8; 128];
    assert_eq!(add_padding(&p).unwrap(), p);
}

#[test]
fn pad_empty_message_stays_empty() {
    assert_eq!(add_padding(&[]).unwrap(), Vec::<u8>::new());
}

#[test]
fn pad_sixty_three_bytes_puts_sentinel_last() {
    let p = vec![1u8; 63];
    let r = add_padding(&p).unwrap();
    assert_eq!(r.len(), 64);
    assert_eq!(r[63], 60);
    assert_eq!(remove_padding(&r), p);
}

#[test]
fn pad_then_unpad_round_trip() {
    for len in [1usize, 5, 24, 62, 65, 100, 127, 200] {
        let p: Vec<u8> = (0..len).map(|i| b'a' + (i % 26) as u8).collect();
        let r = add_padding(&p).unwrap();
        assert_eq!(r.len() % 64, 0);
        assert_eq!(remove_padding(&r), p);
    }
}

#[test]
fn unpad_cuts_at_first_sentinel_of_last_block() {
    let mut s = vec![b'x'; 64];
    s[10] = 60;
    s[20] = 60;
    assert_eq!(remove_padding(&s), vec![b'x'; 10]);
}

#[test]
fn unpad_without_sentinel_drops_last_byte() {
    let s = vec![b'x'; 128];
    assert_eq!(remove_padding(&s), vec![b'x'; 127]);
}

#[test]
fn unpad_ignores_sentinel_before_last_block() {
    let mut s = vec![b'x'; 128];
    s[3] = 60;
    s[70] = 60;
    assert_eq!(remove_padding(&s).len(), 70);
}

#[test]
fn unpad_empty_is_empty() {
    assert_eq!(remove_padding(&[]), Vec::<u8>::new());
}

#[test]
fn fill_cuts_long_prefix() {
    assert_eq!(fill_random_bytes(b"abcdef", 4).unwrap(), b"abcd".to_vec());
}

#[test]
fn fill_extends_short_prefix() {
    let v = fill_random_bytes(b"12", 24).unwrap();
    assert_eq!(v.len(), 24);
    assert_eq!(&v[..2], b"12");
}

#[test]
fn fill_random_is_not_constant() {
    let a = fill_random_bytes(b"", 24).unwrap();
    let b = fill_random_bytes(b"", 24).unwrap();
    assert_ne!(a, b);
}

#[test]
fn decimal_digits_of_numbers() {
    assert_eq!(decimal_digits(0), b"0".to_vec());
    assert_eq!(decimal_digits(7), b"7".to_vec());
    assert_eq!(decimal_digits(42), b"42".to_vec());
    assert_eq!(decimal_digits(1005), b"1005".to_vec());
}

#[test]
fn split_and_join_fields() {
    let parts = split_fields(b"svc|u|p");
    assert_eq!(parts, vec![b"svc".to_vec(), b"u".to_vec(), b"p".to_vec()]);
    assert_eq!(join_fields(&parts), b"svc|u|p".to_vec());
    assert_eq!(split_fields(b""), vec![Vec::<u8>::new()]);
    assert_eq!(split_fields(b"a||"), vec![b"a".to_vec(), vec![], vec![]]);
    assert_eq!(join_fields(&vec![]), Vec::<u8>::new());
}

#[test]
fn extend_appends_drawn_bytes() {
    let drawn: Result<Vec<u8>, RandError> = Ok(vec![9u8; 23]);
    let mut expected = b"3".to_vec();
    expected.extend_from_slice(&[9u8; 23]);
    assert_eq!(extend_with_draw(b"3", 24, drawn).unwrap(), expected);
}

#[test]
fn extend_reports_failed_draw() {
    let code = NonZeroU32::new(RandError::CUSTOM_START).unwrap();
    let drawn: Result<Vec<u8>, RandError> = Err(RandError::from(code));
    assert_eq!(extend_with_draw(b"3", 24, drawn), Err(StoreError::RandomSourceError));
}
