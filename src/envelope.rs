use vstd::prelude::*;
use vstd::slice::slice_subrange;
use vstd::arithmetic::div_mod::lemma_fundamental_div_mod;
use chacha20poly1305::aead::generic_array::GenericArray;
use chacha20poly1305::aead::{Aead, KeyInit};
use chacha20poly1305::XChaCha20Poly1305;
use crate::error::StoreError;
use crate::padding::{add_padding, fill_random_bytes, is_padding_of, lemma_unpad_pad, padded_len, remove_padding, unambiguous, unpadded};

verus! {

/// Bytes of nonce at the start of every envelope.
pub const NONCE_LEN: usize = 24;

/// Bytes of the key that the cipher uses.
pub const KEY_LEN: usize = 32;

/// aead's opaque error type, returned by the cipher's `encrypt` and `decrypt`; carried only.
#[verifier::external_type_specification]
#[verifier::external_body]
pub struct ExAeadError(chacha20poly1305::aead::Error);

/// The ciphertext and tag that XChaCha20-Poly1305 makes of `msg` under a
/// 32-byte key and a 24-byte nonce.
pub uninterp spec fn xchacha_seal(key: Seq<u8>, nonce: Seq<u8>, msg: Seq<u8>) -> Seq<u8>;

/// The longest message the cipher's key stream covers: `u32::MAX - 1`
/// blocks of 64 bytes, as block 0 keys the tag.
pub const MAX_PLAIN: u64 = 274877906816;

/// The longest envelope that can hold a message: nonce, message and tag.
pub const MAX_ENVELOPE: u64 = 274877906856;

/// A plaintext too long to seal: it, or its padded form, is longer than
/// the key stream covers, or its envelope would not fit in memory.
pub open spec fn too_long(plain: Seq<u8>) -> bool {
    plain.len() > MAX_PLAIN || plain.len() > usize::MAX - 128
}

/// A message short enough for the cipher's key stream.
pub open spec fn sealable(msg: Seq<u8>) -> bool {
    msg.len() <= MAX_PLAIN
}

/// Relies on `XChaCha20Poly1305::encrypt` (chacha20poly1305): the ciphertext
/// is the message xored with the key stream followed by a 16-byte tag, so it
/// depends on key, nonce and message alone, and two messages never give the
/// same ciphertext under one key and nonce. It succeeds on every message the
/// key stream covers; a longer one would run the stream out and panic.
#[verifier::external_body]
fn xchacha_encrypt(key: &[u8], nonce: &[u8], msg: &[u8]) -> (r: Result<Vec<u8>, chacha20poly1305::aead::Error>)
    requires
        key@.len() == 32,
        nonce@.len() == 24,
        sealable(msg@),
    ensures
        r is Ok,
        r matches Ok(c) ==> {
            &&& c@ == xchacha_seal(key@, nonce@, msg@)
            &&& c@.len() == msg@.len() + 16
            &&& forall|m: Seq<u8>| sealable(m) && #[trigger] xchacha_seal(key@, nonce@, m) == c@ ==> m == msg@
        },
{
    let cipher = XChaCha20Poly1305::new(GenericArray::from_slice(key));
    cipher.encrypt(GenericArray::from_slice(nonce), msg)
}

/// Relies on `XChaCha20Poly1305::decrypt` (chacha20poly1305): it checks the
/// tag over the ciphertext and then xors with the key stream, so it returns
/// `m` exactly when the input is what `encrypt` makes of `m`. Inputs are
/// limited to a message the key stream covers and its tag: a longer one that
/// authenticates would run the stream out and panic.
#[verifier::external_body]
fn xchacha_decrypt(key: &[u8], nonce: &[u8], ct: &[u8]) -> (r: Result<Vec<u8>, chacha20poly1305::aead::Error>)
    requires
        key@.len() == 32,
        nonce@.len() == 24,
        ct@.len() <= MAX_PLAIN + 16,
    ensures
        r matches Ok(m) ==> {
            &&& sealable(m@)
            &&& ct@ == xchacha_seal(key@, nonce@, m@)
            &&& forall|q: Seq<u8>| sealable(q) && #[trigger] xchacha_seal(key@, nonce@, q) == ct@ ==> q == m@
        },
        r is Err ==> forall|m: Seq<u8>| sealable(m) ==> ct@ != #[trigger] xchacha_seal(key@, nonce@, m),
{
    let cipher = XChaCha20Poly1305::new(GenericArray::from_slice(key));
    cipher.decrypt(GenericArray::from_slice(nonce), ct)
}

/// The part of a key that the cipher uses.
pub open spec fn cipher_key(key: Seq<u8>) -> Seq<u8> {
    key.subrange(0, 32)
}

/// Envelope `e` (nonce, then ciphertext and tag) decrypts under the 32-byte
/// cipher key `ck` to `m`. An envelope longer than any message's envelope
/// decrypts to nothing.
pub open spec fn decrypts_to(ck: Seq<u8>, e: Seq<u8>, m: Seq<u8>) -> bool {
    &&& 24 <= e.len() <= MAX_ENVELOPE
    &&& sealable(m)
    &&& e.subrange(24, e.len() as int) == xchacha_seal(ck, e.subrange(0, 24), m)
}

/// What envelope `e` decrypts to under `key`, if it authenticates; only the
/// first 32 bytes of the key count.
pub open spec fn decrypted(key: Seq<u8>, e: Seq<u8>) -> Option<Seq<u8>> {
    let ck = cipher_key(key);
    if exists|m: Seq<u8>| decrypts_to(ck, e, m) {
        Some(choose|m: Seq<u8>| decrypts_to(ck, e, m))
    } else {
        None
    }
}

/// The plaintext that opening envelope `e` under `key` gives.
pub open spec fn opened(key: Seq<u8>, e: Seq<u8>) -> Result<Seq<u8>, StoreError> {
    match decrypted(key, e) {
        Some(m) => Ok(unpadded(m)),
        None => Err(StoreError::AuthFailure),
    }
}

/// `e` is an envelope of `p` under `key`: its nonce begins with `prefix`,
/// and it decrypts to a padding of `p`.
pub open spec fn sealed_with(key: Seq<u8>, e: Seq<u8>, p: Seq<u8>, prefix: Seq<u8>) -> bool {
    &&& e.len() >= 24
    &&& prefix.len() <= 24 ==> e.subrange(0, prefix.len() as int) == prefix
    &&& decrypted(key, e) matches Some(m) && is_padding_of(m, p)
}

/// Seals `plain` under `key` into nonce ‖ ciphertext ‖ tag. The nonce begins
/// with `nonce_prefix` and is filled up to 24 bytes at random.
pub fn seal(plain: &[u8], key: &[u8], nonce_prefix: &[u8]) -> (r: Result<Vec<u8>, StoreError>)
    requires
        key@.len() >= 32,
    ensures
        r matches Ok(e) ==> {
            &&& sealed_with(key@, e@, plain@, nonce_prefix@)
            &&& e@.len() == 24 + padded_len(plain@.len()) + 16
        },
        r matches Err(x) ==> x == StoreError::RandomSourceError || x == StoreError::CryptoSealError,
        r == Err::<Vec<u8>, StoreError>(StoreError::CryptoSealError) <==> too_long(plain@),
{
    if plain.len() as u64 > MAX_PLAIN || plain.len() > usize::MAX - 128 {
        return Err(StoreError::CryptoSealError);
    }
    let nonce = match fill_random_bytes(nonce_prefix, NONCE_LEN) {
        Ok(n) => n,
        Err(e) => return Err(e),
    };
    let padded = match add_padding(plain) {
        Ok(p) => p,
        Err(e) => return Err(e),
    };
    let k = slice_subrange(key, 0, KEY_LEN);
    assert(padded@.len() == padded_len(plain@.len()));
    proof {
        let n = plain@.len() as int;
        lemma_fundamental_div_mod(n, 64);
        if n % 64 != 0 {
            assert((n / 64 + 1) * 64 <= 274877906816) by (nonlinear_arith)
                requires
                    n == 64 * (n / 64) + n % 64,
                    0 < n % 64 < 64,
                    n <= 274877906816,
            ;
        }
    }
    assert(sealable(padded@));
    match xchacha_encrypt(k, nonce.as_slice(), padded.as_slice()) {
        Ok(mut c) => {
            let ghost c0 = c@;
            let mut out = nonce;
            out.append(&mut c);
            proof {
                assert(out@.subrange(24, out@.len() as int) =~= c0);
                assert(out@.subrange(0, 24) =~= nonce@);
                assert(decrypts_to(cipher_key(key@), out@, padded@));
                assert(decrypted(key@, out@) == Some(padded@));
                if nonce_prefix@.len() <= 24 {
                    assert(out@.subrange(0, nonce_prefix@.len() as int) =~= nonce@.subrange(
                        0,
                        nonce_prefix@.len() as int,
                    ));
                    if nonce_prefix@.len() == 24 {
                        assert(nonce_prefix@.subrange(0, 24) =~= nonce_prefix@);
                    } else {
                        assert(nonce@.subrange(0, nonce_prefix@.len() as int) == nonce_prefix@);
                    }
                }
                assert(padded@.len() == padded_len(plain@.len()));
                assert(sealed_with(key@, out@, plain@, nonce_prefix@));
            }
            Ok(out)
        },
        Err(_) => Err(StoreError::CryptoSealError),
    }
}

/// Opens envelope `e` under `key`: authenticates and decrypts it, then
/// removes the padding.
pub fn open(e: &[u8], key: &[u8]) -> (r: Result<Vec<u8>, StoreError>)
    requires
        key@.len() >= 32,
    ensures
        match opened(key@, e@) {
            Ok(p) => r matches Ok(v) && v@ == p,
            Err(x) => r == Err::<Vec<u8>, StoreError>(x),
        },
{
    if e.len() < NONCE_LEN || e.len() as u64 > MAX_ENVELOPE {
        return Err(StoreError::AuthFailure);
    }
    let k = slice_subrange(key, 0, KEY_LEN);
    let nonce = slice_subrange(e, 0, NONCE_LEN);
    let ct = slice_subrange(e, NONCE_LEN, e.len());
    match xchacha_decrypt(k, nonce, ct) {
        Ok(m) => {
            assert(decrypts_to(cipher_key(key@), e@, m@));
            assert(decrypted(key@, e@) == Some(m@));
            Ok(remove_padding(m.as_slice()))
        },
        Err(_) => {
            assert(decrypted(key@, e@) is None);
            Err(StoreError::AuthFailure)
        },
    }
}

/// Opening an envelope under the key it was sealed with gives back the
/// plaintext, for every plaintext that padding leaves unambiguous.
pub proof fn lemma_open_sealed(key: Seq<u8>, e: Seq<u8>, p: Seq<u8>, prefix: Seq<u8>)
    requires
        sealed_with(key, e, p, prefix),
        unambiguous(p),
    ensures
        opened(key, e) == Ok::<Seq<u8>, StoreError>(p),
{
    lemma_unpad_pad(p, decrypted(key, e)->Some_0);
}

} // verus!
