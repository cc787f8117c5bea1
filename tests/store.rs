use hk_passwordm::framing::{push_frame, read_raw_message};
use hk_passwordm::envelope::seal;
use hk_passwordm::{
    add_account, create_password_file, delete_account, modify_account, read_envelope_text, read_header,
    read_message, StoreError,
};

fn key() -> Vec<u8> {
    b"0123456789abcdef0123456789ABCDEF".to_vec()
}

fn fields(a: &str, u: &str, p: &str) -> Vec<Vec<u8>> {
    vec![a.as_bytes().to_vec(), u.as_bytes().to_vec(), p.as_bytes().to_vec()]
}

fn store_abc() -> Vec<u8> {
    let f = create_password_file(&key()).unwrap();
    let f = add_account(&f, &key(), b"A", b"ua", b"pa").unwrap();
    let f = add_account(&f, &key(), b"B", b"ub", b"pb").unwrap();
    add_account(&f, &key(), b"C", b"uc", b"pc").unwrap()
}

#[test]
fn created_store_has_empty_header() {
    let f = create_password_file(&key()).unwrap();
    assert_eq!(read_header(&f, &key()).unwrap(), Vec::<Vec<u8>>::new());
    assert_eq!(read_envelope_text(&f, &key(), 0).unwrap(), b"HK PASSWORD MANAGER FILE".to_vec());
    assert_eq!(&f[f.len() - 8..], b"EMHKPSWD");
    assert_eq!(f.len(), 24 + 64 + 16 + 8);
}

#[test]
fn create_refuses_short_key() {
    assert_eq!(create_password_file(b"short"), Err(StoreError::KeyTooShort));
}

#[test]
fn create_then_add_reads_back() {
    let f = create_password_file(&key()).unwrap();
    let g = add_account(&f, &key(), b"svc", b"u", b"p").unwrap();
    assert_eq!(read_header(&g, &key()).unwrap(), vec![b"svc".to_vec()]);
    assert_eq!(read_message(&g, &key(), 0).unwrap(), fields("svc", "u", "p"));
    assert_eq!(read_envelope_text(&g, &key(), 0).unwrap(), b"HK PASSWORD MANAGER FILE|svc".to_vec());
}

#[test]
fn record_nonce_begins_with_envelope_number() {
    let f = store_abc();
    assert_eq!(read_raw_message(&f, 1).unwrap()[0], b'1');
    assert_eq!(read_raw_message(&f, 2).unwrap()[0], b'2');
    assert_eq!(read_raw_message(&f, 3).unwrap()[0], b'3');
}

#[test]
fn add_keeps_earlier_records_verbatim() {
    let f = create_password_file(&key()).unwrap();
    let f = add_account(&f, &key(), b"A", b"ua", b"pa").unwrap();
    let g = add_account(&f, &key(), b"B", b"ub", b"pb").unwrap();
    assert_eq!(read_raw_message(&g, 1).unwrap(), read_raw_message(&f, 1).unwrap());
    assert_eq!(read_header(&g, &key()).unwrap(), vec![b"A".to_vec(), b"B".to_vec()]);
    assert_eq!(read_message(&g, &key(), 1).unwrap(), fields("B", "ub", "pb"));
}

#[test]
fn add_duplicate_is_refused() {
    let f = create_password_file(&key()).unwrap();
    let f = add_account(&f, &key(), b"svc", b"u", b"p").unwrap();
    let before = f.clone();
    assert_eq!(add_account(&f, &key(), b"svc", b"x", b"y"), Err(StoreError::DuplicateAccount));
    assert_eq!(f, before);
    assert_eq!(read_header(&f, &key()).unwrap(), vec![b"svc".to_vec()]);
    assert_eq!(read_message(&f, &key(), 0).unwrap(), fields("svc", "u", "p"));
}

#[test]
fn modify_changes_only_its_record() {
    let f = store_abc();
    let g = modify_account(&f, &key(), b"B", b"ub", b"new").unwrap();
    for n in [0usize, 1, 3] {
        assert_eq!(read_raw_message(&g, n).unwrap(), read_raw_message(&f, n).unwrap());
    }
    assert_ne!(read_raw_message(&g, 2).unwrap(), read_raw_message(&f, 2).unwrap());
    assert_eq!(read_raw_message(&g, 2).unwrap()[0], b'2');
    assert_eq!(read_message(&g, &key(), 0).unwrap(), fields("A", "ua", "pa"));
    assert_eq!(read_message(&g, &key(), 1).unwrap(), fields("B", "ub", "new"));
    assert_eq!(read_message(&g, &key(), 2).unwrap(), fields("C", "uc", "pc"));
}

#[test]
fn modify_unknown_account_is_not_found() {
    let f = store_abc();
    assert_eq!(modify_account(&f, &key(), b"Z", b"u", b"p"), Err(StoreError::AccountNotFound));
}

#[test]
fn delete_shifts_later_records() {
    let f = store_abc();
    let g = delete_account(&f, &key(), b"B").unwrap();
    assert_eq!(read_header(&g, &key()).unwrap(), vec![b"A".to_vec(), b"C".to_vec()]);
    assert_eq!(read_message(&g, &key(), 0).unwrap(), fields("A", "ua", "pa"));
    assert_eq!(read_message(&g, &key(), 1).unwrap(), fields("C", "uc", "pc"));
    assert_eq!(read_raw_message(&g, 2).unwrap(), read_raw_message(&f, 3).unwrap());
    assert_eq!(read_message(&g, &key(), 2), Err(StoreError::FramingError));
}

#[test]
fn delete_first_and_last() {
    let f = store_abc();
    let g = delete_account(&f, &key(), b"A").unwrap();
    assert_eq!(read_header(&g, &key()).unwrap(), vec![b"B".to_vec(), b"C".to_vec()]);
    let h = delete_account(&g, &key(), b"C").unwrap();
    assert_eq!(read_header(&h, &key()).unwrap(), vec![b"B".to_vec()]);
    assert_eq!(read_message(&h, &key(), 0).unwrap(), fields("B", "ub", "pb"));
}

#[test]
fn delete_unknown_account_is_not_found() {
    let f = store_abc();
    assert_eq!(delete_account(&f, &key(), b"Z"), Err(StoreError::AccountNotFound));
}

#[test]
fn wrong_key_is_auth_failure() {
    let f = store_abc();
    let other = b"0123456789abcdef0123456789ABCDEX".to_vec();
    assert_eq!(read_header(&f, &other), Err(StoreError::AuthFailure));
    assert_eq!(read_message(&f, &other, 0), Err(StoreError::AuthFailure));
    assert_eq!(add_account(&f, &other, b"D", b"u", b"p"), Err(StoreError::AuthFailure));
}

#[test]
fn short_key_is_refused_everywhere() {
    let f = store_abc();
    let k = b"too short".to_vec();
    assert_eq!(read_header(&f, &k), Err(StoreError::KeyTooShort));
    assert_eq!(read_message(&f, &k, 0), Err(StoreError::KeyTooShort));
    assert_eq!(add_account(&f, &k, b"D", b"u", b"p"), Err(StoreError::KeyTooShort));
    assert_eq!(modify_account(&f, &k, b"A", b"u", b"p"), Err(StoreError::KeyTooShort));
    assert_eq!(delete_account(&f, &k, b"A"), Err(StoreError::KeyTooShort));
}

#[test]
fn empty_file_is_framing_error() {
    assert_eq!(read_header(&[], &key()), Err(StoreError::FramingError));
    assert_eq!(add_account(&[], &key(), b"a", b"u", b"p"), Err(StoreError::FramingError));
}

#[test]
fn missing_record_is_framing_error() {
    let f = store_abc();
    let header_only = read_raw_message(&f, 0).unwrap();
    let mut cut = Vec::new();
    push_frame(&mut cut, &header_only);
    assert_eq!(add_account(&cut, &key(), b"D", b"u", b"p"), Err(StoreError::FramingError));
    assert_eq!(delete_account(&cut, &key(), b"A"), Err(StoreError::FramingError));
    assert_eq!(modify_account(&cut, &key(), b"A", b"u", b"p"), Err(StoreError::FramingError));
}

#[test]
fn record_with_two_fields_is_encoding_error() {
    let f = create_password_file(&key()).unwrap();
    let f = add_account(&f, &key(), b"A", b"ua", b"pa").unwrap();
    let header = read_raw_message(&f, 0).unwrap();
    let bad = seal(b"A|ua", &key(), b"1").unwrap();
    let mut g = Vec::new();
    push_frame(&mut g, &header);
    push_frame(&mut g, &bad);
    assert_eq!(read_message(&g, &key(), 0), Err(StoreError::EncodingError));
    assert_eq!(modify_account(&g, &key(), b"A", b"u", b"p"), Err(StoreError::EncodingError));
}

#[test]
fn record_of_another_account_is_not_found() {
    let f = create_password_file(&key()).unwrap();
    let f = add_account(&f, &key(), b"A", b"ua", b"pa").unwrap();
    let header = read_raw_message(&f, 0).unwrap();
    let other = seal(b"X|ua|pa", &key(), b"1").unwrap();
    let mut g = Vec::new();
    push_frame(&mut g, &header);
    push_frame(&mut g, &other);
    assert_eq!(modify_account(&g, &key(), b"A", b"u", b"p"), Err(StoreError::AccountNotFound));
}
